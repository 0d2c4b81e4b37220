//! The keys of a dataset's tree and the invariant that its writers keep.
use vstd::prelude::*;
use vstd::utf8::*;
use crate::codec::{
    be_bytes, be_value, decode_key, EAVC_PREFIX, EVAC_PREFIX, AVEC_PREFIX, float_body, float_of_body, integer_body, integer_of_body, is_permutation_tag, is_statement_key,
    permutation_key, IdSet, AEVC_PREFIX, ATTRIBUTE_ID_COUNTER_KEY, ATTRIBUTE_ID_TO_NAME_PREFIX,
    ATTRIBUTE_NAME_TO_ID_PREFIX, CEAV_PREFIX, ENTITY_ID_COUNTER_KEY, ENTITY_VALUE_PREFIX,
    FLOAT_VALUE_PREFIX, INTEGER_VALUE_PREFIX, STRING_LITERAL_ID_COUNTER_KEY,
    STRING_LITERAL_ID_TO_VALUE_PREFIX, STRING_LITERAL_VALUE_TO_ID_PREFIX, STRING_VALUE_PREFIX,
    VEAC_PREFIX,
};
use crate::model::{valid_attribute_name, Value, Statement, PersistedStatement};
use crate::store::{ascending, has_prefix, in_key_range, lists_keys_in_range, lists_keys_with_prefix};

verus! {

/// A value, as the contracts speak of it.
pub enum ValueView {
    Entity(u64),
    StringLiteral(Seq<char>),
    IntegerLiteral(i64),
    FloatLiteral(u64),
}

/// A statement, as the contracts speak of it.
pub struct StatementView {
    pub entity: u64,
    pub attribute: Seq<char>,
    pub value: ValueView,
}

/// A persisted statement, as the contracts speak of it.
pub struct PersistedView {
    pub statement: StatementView,
    pub context: u64,
}

pub open spec fn value_view(v: Value) -> ValueView {
    match v {
        Value::Entity(e) => ValueView::Entity(e.0),
        Value::StringLiteral(s) => ValueView::StringLiteral(s@),
        Value::IntegerLiteral(i) => ValueView::IntegerLiteral(i),
        Value::FloatLiteral(f) => ValueView::FloatLiteral(f),
    }
}

pub open spec fn statement_view(s: Statement) -> StatementView {
    StatementView { entity: s.entity.0, attribute: s.attribute@, value: value_view(s.value) }
}

pub open spec fn persisted_view(p: PersistedStatement) -> PersistedView {
    PersistedView { statement: statement_view(p.statement), context: p.context.0 }
}

/// The map from keys to values that models a dataset's tree.
pub type Contents = Map<Seq<u8>, Seq<u8>>;

/// The key of a counter.
pub open spec fn counter_key(tag: u8) -> Seq<u8> {
    seq![tag]
}

/// A counter is absent or eight bytes long.
pub open spec fn counter_ok(m: Contents, tag: u8) -> bool {
    m.contains_key(counter_key(tag)) ==> m[counter_key(tag)].len() == 8
}

/// The value of a counter; an absent counter is 0.
pub open spec fn counter(m: Contents, tag: u8) -> u64 {
    if m.contains_key(counter_key(tag)) {
        be_value(m[counter_key(tag)])
    } else {
        0
    }
}

/// A key made of a one-byte tag and a body.
pub open spec fn tagged(tag: u8, body: Seq<u8>) -> Seq<u8> {
    seq![tag] + body
}

pub open spec fn attribute_name_key(name: Seq<char>) -> Seq<u8> {
    tagged(ATTRIBUTE_NAME_TO_ID_PREFIX, encode_utf8(name))
}

pub open spec fn attribute_id_key(id: u64) -> Seq<u8> {
    tagged(ATTRIBUTE_ID_TO_NAME_PREFIX, be_bytes(id))
}

pub open spec fn string_text_key(text: Seq<char>) -> Seq<u8> {
    tagged(STRING_LITERAL_VALUE_TO_ID_PREFIX, encode_utf8(text))
}

pub open spec fn string_id_key(id: u64) -> Seq<u8> {
    tagged(STRING_LITERAL_ID_TO_VALUE_PREFIX, be_bytes(id))
}

/// The counter, name-to-id and id-to-name tags of one interning table.
pub open spec fn is_interning_table(counter_tag: u8, name_tag: u8, id_tag: u8) -> bool {
    ||| (counter_tag == ATTRIBUTE_ID_COUNTER_KEY && name_tag == ATTRIBUTE_NAME_TO_ID_PREFIX
        && id_tag == ATTRIBUTE_ID_TO_NAME_PREFIX)
    ||| (counter_tag == STRING_LITERAL_ID_COUNTER_KEY && name_tag
        == STRING_LITERAL_VALUE_TO_ID_PREFIX && id_tag == STRING_LITERAL_ID_TO_VALUE_PREFIX)
}

/// Each name of an interning table maps to an eight-byte id, and that id
/// maps back to the name; each id is one that the table's counter has passed.
pub open spec fn interning_ok(m: Contents, counter_tag: u8, name_tag: u8, id_tag: u8) -> bool {
    &&& forall|b: Seq<u8>|
        #[trigger] m.contains_key(tagged(name_tag, b)) ==> {
            &&& m[tagged(name_tag, b)].len() == 8
            &&& m.contains_key(tagged(id_tag, m[tagged(name_tag, b)]))
            &&& m[tagged(id_tag, m[tagged(name_tag, b)])] == b
        }
    &&& forall|b: Seq<u8>|
        #[trigger] m.contains_key(tagged(id_tag, b)) ==> b.len() == 8 && be_value(b) <= counter(
            m,
            counter_tag,
        )
}

/// The id that the dataset gave an attribute name.
pub open spec fn attribute_id(m: Contents, name: Seq<char>) -> u64 {
    be_value(m[attribute_name_key(name)])
}

/// The id that the dataset gave a string literal.
pub open spec fn string_id(m: Contents, text: Seq<char>) -> u64 {
    be_value(m[string_text_key(text)])
}

/// Every name and text that a statement needs has an id in `m`.
pub open spec fn is_interned(m: Contents, s: StatementView) -> bool {
    &&& m.contains_key(attribute_name_key(s.attribute))
    &&& s.value matches ValueView::StringLiteral(t) ==> m.contains_key(string_text_key(t))
}

/// The type byte of a value.
pub open spec fn value_type(v: ValueView) -> u8 {
    match v {
        ValueView::Entity(_) => ENTITY_VALUE_PREFIX,
        ValueView::StringLiteral(_) => STRING_VALUE_PREFIX,
        ValueView::IntegerLiteral(_) => INTEGER_VALUE_PREFIX,
        ValueView::FloatLiteral(_) => FLOAT_VALUE_PREFIX,
    }
}

/// The eight body bytes of a value under the ids of `m`.
pub open spec fn value_body(m: Contents, v: ValueView) -> Seq<u8> {
    match v {
        ValueView::Entity(id) => be_bytes(id),
        ValueView::StringLiteral(t) => be_bytes(string_id(m, t)),
        ValueView::IntegerLiteral(i) => integer_body(i),
        ValueView::FloatLiteral(f) => float_body(f),
    }
}

/// The ids of a statement under the ids of `m`, with context `c`.
pub open spec fn resolved_ids(m: Contents, s: StatementView, c: u64) -> IdSet {
    IdSet {
        entity: s.entity,
        attribute: attribute_id(m, s.attribute),
        value_prefix: value_type(s.value),
        value_body: value_body(m, s.value),
        context: c,
    }
}

/// All seven index keys of `ids` are in `m`.
pub open spec fn holds_statement(m: Contents, ids: IdSet) -> bool {
    forall|tag: u8| is_permutation_tag(tag) ==> #[trigger] m.contains_key(permutation_key(tag, ids))
}

/// The entity ids of a statement are ones that the dataset allocated.
pub open spec fn entities_valid(m: Contents, s: StatementView) -> bool {
    &&& s.entity <= counter(m, ENTITY_ID_COUNTER_KEY)
    &&& s.value matches ValueView::Entity(id) ==> id <= counter(m, ENTITY_ID_COUNTER_KEY)
}

/// The prefix of the context index keys of context `c`.
pub open spec fn context_prefix(c: u64) -> Seq<u8> {
    seq![CEAV_PREFIX] + be_bytes(c)
}

/// The prefix of the attribute index keys of attribute id `id`.
pub open spec fn attribute_prefix(id: u64) -> Seq<u8> {
    seq![AEVC_PREFIX] + be_bytes(id)
}

/// The prefix of the value index keys of the string literal with body `body`.
pub open spec fn string_value_prefix(body: Seq<u8>) -> Seq<u8> {
    seq![VEAC_PREFIX, STRING_VALUE_PREFIX] + body
}

/// Each statement in `m` has all seven of its index keys: they come and go together.
#[verifier::opaque]
pub open spec fn seven_keys(m: Contents) -> bool {
    forall|k: Seq<u8>| #[trigger] m.contains_key(k) && is_statement_key(k) ==> holds_statement(m, decode_key(k))
}

/// What the writers of a dataset keep true of its tree: the counters are
/// well formed, each context is one that the entity counter has passed, each
/// statement has all seven index keys, and each interned name or text maps to
/// an id and back.
pub open spec fn dataset_inv(m: Contents) -> bool {
    &&& counter_ok(m, ENTITY_ID_COUNTER_KEY)
    &&& counter_ok(m, ATTRIBUTE_ID_COUNTER_KEY)
    &&& counter_ok(m, STRING_LITERAL_ID_COUNTER_KEY)
    &&& forall|k: Seq<u8>|
        #[trigger] m.contains_key(k) && is_statement_key(k) ==> decode_key(k).context <= counter(
            m,
            ENTITY_ID_COUNTER_KEY,
        )
    &&& forall|k: Seq<u8>|
        #[trigger] m.contains_key(k) && k.len() > 0 && is_permutation_tag(k[0]) ==> is_statement_key(k)
    &&& seven_keys(m)
    &&& interning_ok(
        m,
        ATTRIBUTE_ID_COUNTER_KEY,
        ATTRIBUTE_NAME_TO_ID_PREFIX,
        ATTRIBUTE_ID_TO_NAME_PREFIX,
    )
    &&& interning_ok(
        m,
        STRING_LITERAL_ID_COUNTER_KEY,
        STRING_LITERAL_VALUE_TO_ID_PREFIX,
        STRING_LITERAL_ID_TO_VALUE_PREFIX,
    )
}

/// `k` is one of the seven index keys of `ids`.
pub open spec fn is_key_of(k: Seq<u8>, ids: IdSet) -> bool {
    exists|tag: u8| is_permutation_tag(tag) && k == #[trigger] permutation_key(tag, ids)
}

/// `m` with the seven index keys of `ids` added, with empty values.
pub open spec fn with_statement(m: Contents, ids: IdSet) -> Contents {
    Map::new(
        |k: Seq<u8>| m.contains_key(k) || is_key_of(k, ids),
        |k: Seq<u8>|
            if is_key_of(k, ids) {
                Seq::empty()
            } else {
                m[k]
            },
    )
}

/// The statement index keys of `m0` and `m1` are the same.
pub open spec fn same_index(m0: Contents, m1: Contents) -> bool {
    forall|k: Seq<u8>| is_statement_key(k) ==> (#[trigger] m0.contains_key(k) == m1.contains_key(k))
}

/// The value that a key's value field stands for under the ids of `m`.
pub open spec fn stored_value(m: Contents, prefix: u8, body: Seq<u8>) -> ValueView {
    if prefix == ENTITY_VALUE_PREFIX {
        ValueView::Entity(be_value(body))
    } else if prefix == STRING_VALUE_PREFIX {
        ValueView::StringLiteral(decode_utf8(m[tagged(STRING_LITERAL_ID_TO_VALUE_PREFIX, body)]))
    } else if prefix == INTEGER_VALUE_PREFIX {
        ValueView::IntegerLiteral(integer_of_body(body))
    } else {
        ValueView::FloatLiteral(float_of_body(body))
    }
}

/// A value field names a known type, and a string literal's text is stored.
pub open spec fn value_loadable(m: Contents, prefix: u8, body: Seq<u8>) -> bool {
    &&& prefix <= FLOAT_VALUE_PREFIX
    &&& prefix == STRING_VALUE_PREFIX ==> {
        &&& m.contains_key(tagged(STRING_LITERAL_ID_TO_VALUE_PREFIX, body))
        &&& valid_utf8(m[tagged(STRING_LITERAL_ID_TO_VALUE_PREFIX, body)])
    }
}

/// An attribute id has a stored name of the required shape.
pub open spec fn attribute_loadable(m: Contents, id: u64) -> bool {
    &&& m.contains_key(attribute_id_key(id))
    &&& valid_utf8(m[attribute_id_key(id)])
    &&& valid_attribute_name(decode_utf8(m[attribute_id_key(id)]))
}

/// A statement key whose attribute and value can be read back from `m`.
pub open spec fn key_loadable(m: Contents, k: Seq<u8>) -> bool {
    &&& is_statement_key(k)
    &&& attribute_loadable(m, decode_key(k).attribute)
    &&& value_loadable(m, decode_key(k).value_prefix, decode_key(k).value_body)
}

/// The persisted statement that a statement key stands for under the names of `m`.
pub open spec fn key_statement(m: Contents, k: Seq<u8>) -> PersistedView {
    let ids = decode_key(k);
    PersistedView {
        statement: StatementView {
            entity: ids.entity,
            attribute: decode_utf8(m[attribute_id_key(ids.attribute)]),
            value: stored_value(m, ids.value_prefix, ids.value_body),
        },
        context: ids.context,
    }
}

/// `v` holds, one for each, the statements of the keys of `m` that begin with `p`.
pub open spec fn loaded_from_prefix(m: Contents, p: Seq<u8>, v: Seq<PersistedStatement>) -> bool {
    exists|keys: Seq<Vec<u8>>|
        #![trigger lists_keys_with_prefix(keys, m, p)]
        {
            &&& lists_keys_with_prefix(keys, m, p)
            &&& keys.len() == v.len()
            &&& forall|i: int|
                0 <= i < v.len() ==> key_loadable(m, #[trigger] keys[i]@) && persisted_view(v[i])
                    == key_statement(m, keys[i]@)
        }
}

/// Every key of `m` that begins with `p` can be read back.
pub open spec fn all_loadable(m: Contents, p: Seq<u8>) -> bool {
    forall|k: Seq<u8>| #[trigger] m.contains_key(k) && has_prefix(k, p) ==> key_loadable(m, k)
}

/// A value in key position under the ids of `m`: its type byte, then its body.
pub open spec fn value_key_field(m: Contents, v: ValueView) -> Seq<u8> {
    seq![value_type(v)] + value_body(m, v)
}

/// The names and texts of a pattern have ids in `m`.
pub open spec fn pattern_interned(m: Contents, a: Option<Seq<char>>, v: Option<ValueView>) -> bool {
    &&& a matches Some(name) ==> m.contains_key(attribute_name_key(name))
    &&& v matches Some(ValueView::StringLiteral(t)) ==> m.contains_key(string_text_key(t))
}

/// The key prefix that `match_statements` scans for a pattern: the index
/// whose leading fields are exactly the bound ones, followed by them.
pub open spec fn match_prefix(
    m: Contents,
    e: Option<u64>,
    a: Option<Seq<char>>,
    v: Option<ValueView>,
) -> Seq<u8> {
    let aid = |name: Seq<char>| be_bytes(attribute_id(m, name));
    match (e, a, v) {
        (None, None, None) => seq![EAVC_PREFIX],
        (Some(e), None, None) => seq![EAVC_PREFIX] + be_bytes(e),
        (Some(e), Some(a), None) => seq![EAVC_PREFIX] + be_bytes(e) + aid(a),
        (Some(e), Some(a), Some(v)) => seq![EAVC_PREFIX] + be_bytes(e) + aid(a) + value_key_field(m, v),
        (Some(e), None, Some(v)) => seq![EVAC_PREFIX] + be_bytes(e) + value_key_field(m, v),
        (None, Some(a), None) => seq![AEVC_PREFIX] + aid(a),
        (None, Some(a), Some(v)) => seq![AVEC_PREFIX] + aid(a) + value_key_field(m, v),
        (None, None, Some(v)) => seq![VEAC_PREFIX] + value_key_field(m, v),
    }
}

/// The index that `match_statements` scans for a pattern.
pub open spec fn match_tag(e: Option<u64>, a: Option<Seq<char>>, v: Option<ValueView>) -> u8 {
    match (e, a, v) {
        (Some(_), None, Some(_)) => EVAC_PREFIX,
        (None, Some(_), None) => AEVC_PREFIX,
        (None, Some(_), Some(_)) => AVEC_PREFIX,
        (None, None, Some(_)) => VEAC_PREFIX,
        _ => EAVC_PREFIX,
    }
}

/// The ids of a statement carry each bound field of a pattern, as `m` encodes it.
pub open spec fn ids_match(m: Contents, ids: IdSet, e: Option<u64>, a: Option<Seq<char>>, v: Option<ValueView>) -> bool {
    &&& e matches Some(e) ==> ids.entity == e
    &&& a matches Some(a) ==> ids.attribute == attribute_id(m, a)
    &&& v matches Some(v) ==> ids.value_prefix == value_type(v) && ids.value_body == value_body(m, v)
}

/// A statement agrees with each bound field of a pattern.
pub open spec fn statement_matches(
    s: StatementView,
    e: Option<u64>,
    a: Option<Seq<char>>,
    v: Option<ValueView>,
) -> bool {
    &&& e matches Some(e) ==> s.entity == e
    &&& a matches Some(a) ==> s.attribute == a
    &&& v matches Some(v) ==> s.value == v
}

/// The key prefix that `match_statements_range` scans: the index whose
/// leading fields are the bound entity and attribute, followed by them and by
/// the value type byte `ty`.
pub open spec fn range_prefix(m: Contents, e: Option<u64>, a: Option<Seq<char>>, ty: u8) -> Seq<u8> {
    let aid = |name: Seq<char>| be_bytes(attribute_id(m, name));
    match (e, a) {
        (None, None) => seq![VEAC_PREFIX, ty],
        (Some(e), None) => seq![EVAC_PREFIX] + be_bytes(e) + seq![ty],
        (None, Some(a)) => seq![AVEC_PREFIX] + aid(a) + seq![ty],
        (Some(e), Some(a)) => seq![EAVC_PREFIX] + be_bytes(e) + aid(a) + seq![ty],
    }
}

/// `v` holds, one for each, the statements of the keys of `m` from `lo` to `hi`.
pub open spec fn loaded_from_range(m: Contents, lo: Seq<u8>, hi: Seq<u8>, v: Seq<PersistedStatement>) -> bool {
    exists|keys: Seq<Vec<u8>>|
        #![trigger lists_keys_in_range(keys, m, lo, hi)]
        {
            &&& lists_keys_in_range(keys, m, lo, hi)
            &&& keys.len() == v.len()
            &&& forall|i: int|
                0 <= i < v.len() ==> key_loadable(m, #[trigger] keys[i]@) && persisted_view(v[i])
                    == key_statement(m, keys[i]@)
        }
}

/// The statement of key `k` has a string literal whose UTF-8 bytes lie from `lo` to `hi`.
pub open spec fn text_in_range(m: Contents, k: Seq<u8>, lo: Seq<u8>, hi: Seq<u8>) -> bool {
    key_statement(m, k).statement.value matches ValueView::StringLiteral(t) && in_key_range(
        encode_utf8(t),
        lo,
        hi,
    )
}

/// `keys` lists, once each and in ascending order, exactly the loadable keys
/// of `m` that begin with `p` and whose string literal lies from `lo` to `hi`.
pub open spec fn texts_listed(keys: Seq<Vec<u8>>, m: Contents, p: Seq<u8>, lo: Seq<u8>, hi: Seq<u8>) -> bool {
    &&& forall|i: int|
        0 <= i < keys.len() ==> m.contains_key(#[trigger] keys[i]@) && has_prefix(keys[i]@, p)
            && text_in_range(m, keys[i]@, lo, hi)
    &&& forall|k: Seq<u8>|
        #[trigger] m.contains_key(k) && has_prefix(k, p) && key_loadable(m, k) && text_in_range(
            m,
            k,
            lo,
            hi,
        ) ==> exists|i: int| 0 <= i < keys.len() && #[trigger] keys[i]@ == k
    &&& forall|i: int, j: int| 0 <= i < keys.len() && 0 <= j < keys.len() && i != j ==> keys[i]@ != keys[j]@
    &&& ascending(keys)
}

/// `v` holds, one for each, the statements of the keys of `m` that begin
/// with `p` and whose string literal lies from `lo` to `hi`.
pub open spec fn loaded_texts_in_range(
    m: Contents,
    p: Seq<u8>,
    lo: Seq<u8>,
    hi: Seq<u8>,
    v: Seq<PersistedStatement>,
) -> bool {
    exists|keys: Seq<Vec<u8>>|
        #![trigger texts_listed(keys, m, p, lo, hi)]
        {
            &&& texts_listed(keys, m, p, lo, hi)
            &&& keys.len() == v.len()
            &&& forall|i: int|
                0 <= i < v.len() ==> key_loadable(m, #[trigger] keys[i]@) && persisted_view(v[i])
                    == key_statement(m, keys[i]@)
        }
}

/// Every key of `m` from `lo` to `hi` can be read back.
pub open spec fn all_loadable_in_range(m: Contents, lo: Seq<u8>, hi: Seq<u8>) -> bool {
    forall|k: Seq<u8>| #[trigger] m.contains_key(k) && in_key_range(k, lo, hi) ==> key_loadable(m, k)
}

/// The seven index keys of a stored statement key are all stored.
pub proof fn lemma_seven_keys_of(m: Contents, k: Seq<u8>)
    requires
        seven_keys(m),
        m.contains_key(k),
        is_statement_key(k),
    ensures
        holds_statement(m, decode_key(k)),
{
    reveal(seven_keys);
}

/// A dataset with nothing in its tree meets the invariant.
pub proof fn lemma_empty_dataset_inv()
    ensures
        dataset_inv(Map::empty()),
{
    reveal(seven_keys);
}

} // verus!
