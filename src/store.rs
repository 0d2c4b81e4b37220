//! The ordered tree that a dataset lives in, as the rest of the library sees it.
//!
//! A dataset's tree is modelled by the map of its keys to their values. Each
//! operation of sled that the library uses has a wrapper here whose contract
//! states its effect on that map. Writers of one dataset are serialized, so
//! between two calls of one writer nothing else changes the tree; and a
//! reader's contracts speak of the tree as it is during each of its calls,
//! so they hold when no writer runs during that call.
use vstd::prelude::*;

verus! {

#[verifier::external_type_specification]
#[verifier::external_body]
pub struct ExTree(sled::Tree);

#[verifier::external_type_specification]
#[verifier::external_body]
pub struct ExBatch(sled::Batch);

#[verifier::external_type_specification]
#[verifier::external_body]
pub struct ExError(sled::Error);

/// What a tree holds: each key with its value.
pub uninterp spec fn tree_contents(t: sled::Tree) -> Map<Seq<u8>, Seq<u8>>;

/// What a batch will write: a key with its new value, or with none for a removal.
pub uninterp spec fn batch_writes(b: sled::Batch) -> Map<Seq<u8>, Option<Seq<u8>>>;

/// `k` begins with `p`.
pub open spec fn has_prefix(k: Seq<u8>, p: Seq<u8>) -> bool {
    k.len() >= p.len() && k.subrange(0, p.len() as int) == p
}

/// Some key of `m` begins with `p`.
pub open spec fn has_key_with_prefix(m: Map<Seq<u8>, Seq<u8>>, p: Seq<u8>) -> bool {
    exists|k: Seq<u8>| #[trigger] m.contains_key(k) && has_prefix(k, p)
}

/// `keys` are in strictly ascending byte order.
pub open spec fn ascending(keys: Seq<Vec<u8>>) -> bool {
    forall|i: int, j: int| 0 <= i < j < keys.len() ==> bytes_lt(#[trigger] keys[i]@, #[trigger] keys[j]@)
}

/// `keys` lists, once each and in ascending order, exactly the keys of `m`
/// that begin with `p`.
pub open spec fn lists_keys_with_prefix(
    keys: Seq<Vec<u8>>,
    m: Map<Seq<u8>, Seq<u8>>,
    p: Seq<u8>,
) -> bool {
    &&& forall|i: int| 0 <= i < keys.len() ==> m.contains_key(#[trigger] keys[i]@) && has_prefix(keys[i]@, p)
    &&& forall|k: Seq<u8>| #[trigger] m.contains_key(k) && has_prefix(k, p) ==> exists|i: int|
        0 <= i < keys.len() && #[trigger] keys[i]@ == k
    &&& forall|i: int, j: int| 0 <= i < keys.len() && 0 <= j < keys.len() && i != j ==> keys[i]@ != keys[j]@
    &&& ascending(keys)
}

/// `a` comes before `b` in the lexicographic order of byte strings.
pub open spec fn bytes_lt(a: Seq<u8>, b: Seq<u8>) -> bool
    decreases a.len(),
{
    if a.len() == 0 {
        b.len() > 0
    } else if b.len() == 0 {
        false
    } else if a[0] != b[0] {
        a[0] < b[0]
    } else {
        bytes_lt(a.drop_first(), b.drop_first())
    }
}

/// `k` lies in the half-open range from `lo` to `hi`.
pub open spec fn in_key_range(k: Seq<u8>, lo: Seq<u8>, hi: Seq<u8>) -> bool {
    !bytes_lt(k, lo) && bytes_lt(k, hi)
}

/// `keys` lists, once each and in ascending order, exactly the keys of `m`
/// in the range from `lo` to `hi`.
pub open spec fn lists_keys_in_range(
    keys: Seq<Vec<u8>>,
    m: Map<Seq<u8>, Seq<u8>>,
    lo: Seq<u8>,
    hi: Seq<u8>,
) -> bool {
    &&& forall|i: int| 0 <= i < keys.len() ==> m.contains_key(#[trigger] keys[i]@) && in_key_range(keys[i]@, lo, hi)
    &&& forall|k: Seq<u8>| #[trigger] m.contains_key(k) && in_key_range(k, lo, hi) ==> exists|i: int|
        0 <= i < keys.len() && #[trigger] keys[i]@ == k
    &&& forall|i: int, j: int| 0 <= i < keys.len() && 0 <= j < keys.len() && i != j ==> keys[i]@ != keys[j]@
    &&& ascending(keys)
}

/// No two byte strings each come before the other.
pub proof fn lemma_bytes_lt_asymmetric(a: Seq<u8>, b: Seq<u8>)
    ensures
        !(bytes_lt(a, b) && bytes_lt(b, a)),
    decreases a.len(),
{
    if a.len() > 0 && b.len() > 0 && a[0] == b[0] {
        lemma_bytes_lt_asymmetric(a.drop_first(), b.drop_first());
    }
}

/// Two listings, once each and in ascending order, of the same keys are the same listing.
pub proof fn lemma_listings_agree(k1: Seq<Vec<u8>>, k2: Seq<Vec<u8>>, m: Map<Seq<u8>, Seq<u8>>, p: Seq<u8>)
    requires
        lists_keys_with_prefix(k1, m, p),
        lists_keys_with_prefix(k2, m, p),
    ensures
        k1.len() == k2.len(),
        forall|i: int| 0 <= i < k1.len() ==> #[trigger] k1[i]@ == k2[i]@,
{
    if k1.len() <= k2.len() {
        lemma_listing_prefix_agrees(k1, k2, m, p);
    } else {
        lemma_listing_prefix_agrees(k2, k1, m, p);
    }
}

/// Two such listings that agree before position `n` agree up to the end of the shorter.
proof fn lemma_listing_agrees_from(k1: Seq<Vec<u8>>, k2: Seq<Vec<u8>>, m: Map<Seq<u8>, Seq<u8>>, p: Seq<u8>, n: int)
    requires
        lists_keys_with_prefix(k1, m, p),
        lists_keys_with_prefix(k2, m, p),
        k1.len() <= k2.len(),
        0 <= n <= k1.len(),
        forall|i: int| 0 <= i < n ==> #[trigger] k1[i]@ == k2[i]@,
    ensures
        forall|i: int| 0 <= i < k1.len() ==> #[trigger] k1[i]@ == k2[i]@,
    decreases k1.len() - n,
{
    if n < k1.len() {
        let x = k1[n]@;
        let y = k2[n]@;
        assert(m.contains_key(x) && has_prefix(x, p));
        assert(m.contains_key(y) && has_prefix(y, p));
        let j = choose|j: int| 0 <= j < k2.len() && #[trigger] k2[j]@ == x;
        let l = choose|l: int| 0 <= l < k1.len() && #[trigger] k1[l]@ == y;
        if x != y {
            if j < n {
                assert(k1[j]@ == x);
            } else if l < n {
                assert(k2[l]@ == y);
            } else {
                assert(bytes_lt(k2[n]@, k2[j]@));
                assert(bytes_lt(k1[n]@, k1[l]@));
                lemma_bytes_lt_asymmetric(x, y);
            }
        }
        lemma_listing_agrees_from(k1, k2, m, p, n + 1);
    }
}

/// Of two such listings, the shorter is a prefix of the longer.
proof fn lemma_listing_prefix_agrees(k1: Seq<Vec<u8>>, k2: Seq<Vec<u8>>, m: Map<Seq<u8>, Seq<u8>>, p: Seq<u8>)
    requires
        lists_keys_with_prefix(k1, m, p),
        lists_keys_with_prefix(k2, m, p),
        k1.len() <= k2.len(),
    ensures
        k1.len() == k2.len(),
        forall|i: int| 0 <= i < k1.len() ==> #[trigger] k1[i]@ == k2[i]@,
{
    lemma_listing_agrees_from(k1, k2, m, p, 0);
    if k1.len() < k2.len() {
        let y = k2[k1.len() as int]@;
        assert(m.contains_key(y) && has_prefix(y, p));
        let l = choose|l: int| 0 <= l < k1.len() && #[trigger] k1[l]@ == y;
        assert(k2[l]@ == y);
    }
}

/// The map `m` after the writes `w`.
pub open spec fn apply_writes(
    m: Map<Seq<u8>, Seq<u8>>,
    w: Map<Seq<u8>, Option<Seq<u8>>>,
) -> Map<Seq<u8>, Seq<u8>> {
    Map::new(
        |k: Seq<u8>|
            if w.contains_key(k) {
                w[k].is_some()
            } else {
                m.contains_key(k)
            },
        |k: Seq<u8>|
            if w.contains_key(k) {
                w[k].unwrap()
            } else {
                m[k]
            },
    )
}

/// Relies on sled::Tree::get: the value stored under `key`, if any.
#[verifier::external_body]
pub(crate) fn tree_get(tree: &sled::Tree, key: &Vec<u8>) -> (res: Result<Option<Vec<u8>>, sled::Error>)
    ensures
        res matches Ok(Some(v)) ==> tree_contents(*tree).contains_key(key@) && tree_contents(
            *tree,
        )[key@] == v@,
        res matches Ok(None) ==> !tree_contents(*tree).contains_key(key@),
{
    tree.get(key).map(|found| found.map(|v| v.to_vec()))
}

/// Relies on sled::Tree::scan_prefix: it yields each key that begins with
/// `prefix` once, in ascending byte order, or an error.
#[verifier::external_body]
pub(crate) fn tree_scan_prefix(tree: &sled::Tree, prefix: &Vec<u8>) -> (res: Result<
    Vec<Vec<u8>>,
    sled::Error,
>)
    ensures
        res matches Ok(keys) ==> lists_keys_with_prefix(keys@, tree_contents(*tree), prefix@),
{
    tree.scan_prefix(prefix).map(|entry| entry.map(|(k, _)| k.to_vec())).collect()
}

/// Relies on sled::Tree::range: it yields each key from `lo` (included) to
/// `hi` (excluded) once, in ascending byte order, or an error.
#[verifier::external_body]
pub(crate) fn tree_range(tree: &sled::Tree, lo: &Vec<u8>, hi: &Vec<u8>) -> (res: Result<
    Vec<Vec<u8>>,
    sled::Error,
>)
    ensures
        res matches Ok(keys) ==> lists_keys_in_range(keys@, tree_contents(*tree), lo@, hi@),
{
    tree.range(lo.as_slice()..hi.as_slice()).map(|entry| entry.map(|(k, _)| k.to_vec())).collect()
}

/// Relies on sled::Batch's Default impl: a batch with no writes.
#[verifier::external_body]
pub(crate) fn batch_new() -> (res: sled::Batch)
    ensures
        batch_writes(res).dom() == Set::<Seq<u8>>::empty(),
{
    sled::Batch::default()
}

/// Relies on sled::Batch::insert: the batch will set `key` to `value`.
#[verifier::external_body]
pub(crate) fn batch_insert(batch: &mut sled::Batch, key: Vec<u8>, value: Vec<u8>)
    ensures
        batch_writes(*final(batch)) == batch_writes(*old(batch)).insert(key@, Some(value@)),
{
    batch.insert(key, value)
}

/// Relies on sled::Batch::remove: the batch will remove `key`.
#[verifier::external_body]
pub(crate) fn batch_remove(batch: &mut sled::Batch, key: Vec<u8>)
    ensures
        batch_writes(*final(batch)) == batch_writes(*old(batch)).insert(key@, None),
{
    batch.remove(key)
}

/// Relies on sled::Tree::apply_batch: on success every write of the batch
/// has been made, atomically.
#[verifier::external_body]
pub(crate) fn tree_apply_batch(tree: &mut sled::Tree, batch: sled::Batch) -> (res: Result<
    (),
    sled::Error,
>)
    ensures
        res is Ok ==> tree_contents(*final(tree)) == apply_writes(
            tree_contents(*old(tree)),
            batch_writes(batch),
        ),
{
    tree.apply_batch(batch)
}

/// Relies on sled::Tree::compare_and_swap: `Ok(true)` when `key` held
/// `current` (absent for `None`) and now holds `new`; `Ok(false)` when it did
/// not, and nothing was written.
#[verifier::external_body]
pub(crate) fn tree_compare_and_swap(
    tree: &mut sled::Tree,
    key: &Vec<u8>,
    current: Option<Vec<u8>>,
    new: Vec<u8>,
) -> (res: Result<bool, sled::Error>)
    ensures
        res matches Ok(true) ==> tree_contents(*final(tree)) == tree_contents(*old(tree)).insert(
            key@,
            new@,
        ) && match current {
            Some(c) => tree_contents(*old(tree)).contains_key(key@) && tree_contents(
                *old(tree),
            )[key@] == c@,
            None => !tree_contents(*old(tree)).contains_key(key@),
        },
        res matches Ok(false) ==> tree_contents(*final(tree)) == tree_contents(*old(tree)),
{
    tree.compare_and_swap(key, current, Some(new)).map(|swapped| swapped.is_ok())
}

} // verus!
