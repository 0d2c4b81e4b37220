//! Binary encoding of ids, values and the seven statement index keys.
use vstd::prelude::*;
use vstd::string::*;
use vstd::utf8::*;
use crate::error::LigatureSledError;
use crate::model::Attribute;
use crate::store::bytes_lt;

verus! {

/// Key of the entity counter.
pub const ENTITY_ID_COUNTER_KEY: u8 = 0;
/// Key of the attribute counter.
pub const ATTRIBUTE_ID_COUNTER_KEY: u8 = 1;
/// Key of the string-literal counter.
pub const STRING_LITERAL_ID_COUNTER_KEY: u8 = 2;
/// Tag of the attribute name to id entries.
pub const ATTRIBUTE_NAME_TO_ID_PREFIX: u8 = 3;
/// Tag of the attribute id to name entries.
pub const ATTRIBUTE_ID_TO_NAME_PREFIX: u8 = 4;
/// Tag of the entity, attribute, value, context index.
pub const EAVC_PREFIX: u8 = 5;
/// Tag of the entity, value, attribute, context index.
pub const EVAC_PREFIX: u8 = 6;
/// Tag of the attribute, entity, value, context index.
pub const AEVC_PREFIX: u8 = 7;
/// Tag of the attribute, value, entity, context index.
pub const AVEC_PREFIX: u8 = 8;
/// Tag of the value, entity, attribute, context index.
pub const VEAC_PREFIX: u8 = 9;
/// Tag of the value, attribute, entity, context index.
pub const VAEC_PREFIX: u8 = 10;
/// Tag of the context, entity, attribute, value index.
pub const CEAV_PREFIX: u8 = 11;
/// Tag of the string literal to id entries.
pub const STRING_LITERAL_VALUE_TO_ID_PREFIX: u8 = 13;
/// Tag of the string literal id to text entries.
pub const STRING_LITERAL_ID_TO_VALUE_PREFIX: u8 = 14;

/// Type byte of an entity value.
pub const ENTITY_VALUE_PREFIX: u8 = 0;
/// Type byte of a string literal value.
pub const STRING_VALUE_PREFIX: u8 = 1;
/// Type byte of an integer literal value.
pub const INTEGER_VALUE_PREFIX: u8 = 2;
/// Type byte of a float literal value.
pub const FLOAT_VALUE_PREFIX: u8 = 3;

/// The sign bit of a 64-bit word.
pub const SIGN_BIT: u64 = 0x8000_0000_0000_0000;

/// The eight big-endian bytes of `n`.
pub open spec fn be_bytes(n: u64) -> Seq<u8> {
    seq![
        (n >> 56u64) as u8,
        (n >> 48u64) as u8,
        (n >> 40u64) as u8,
        (n >> 32u64) as u8,
        (n >> 24u64) as u8,
        (n >> 16u64) as u8,
        (n >> 8u64) as u8,
        n as u8,
    ]
}

/// The number whose big-endian bytes are the first eight of `b`.
pub open spec fn be_value(b: Seq<u8>) -> u64 {
    ((b[0] as u64) << 56u64) | ((b[1] as u64) << 48u64) | ((b[2] as u64) << 40u64) | ((
    b[3] as u64) << 32u64) | ((b[4] as u64) << 24u64) | ((b[5] as u64) << 16u64) | ((
    b[6] as u64) << 8u64) | (b[7] as u64)
}

pub proof fn lemma_be_value_of_bytes(n: u64)
    ensures
        be_value(be_bytes(n)) == n,
{
    let b = be_bytes(n);
    assert(b[0] == (n >> 56u64) as u8 && b[1] == (n >> 48u64) as u8 && b[2] == (n >> 40u64) as u8
        && b[3] == (n >> 32u64) as u8 && b[4] == (n >> 24u64) as u8 && b[5] == (n >> 16u64) as u8
        && b[6] == (n >> 8u64) as u8 && b[7] == n as u8);
    assert(((((n >> 56u64) as u8) as u64) << 56u64) | ((((n >> 48u64) as u8) as u64) << 48u64) | ((
    ((n >> 40u64) as u8) as u64) << 40u64) | ((((n >> 32u64) as u8) as u64) << 32u64) | ((((n
        >> 24u64) as u8) as u64) << 24u64) | ((((n >> 16u64) as u8) as u64) << 16u64) | ((((n
        >> 8u64) as u8) as u64) << 8u64) | ((n as u8) as u64) == n) by (bit_vector);
}

pub proof fn lemma_be_bytes_of_value(b: Seq<u8>)
    requires
        b.len() == 8,
    ensures
        be_bytes(be_value(b)) == b,
{
    let (b0, b1, b2, b3, b4, b5, b6, b7) = (b[0], b[1], b[2], b[3], b[4], b[5], b[6], b[7]);
    let v = be_value(b);
    assert(v == ((b0 as u64) << 56u64) | ((b1 as u64) << 48u64) | ((b2 as u64) << 40u64) | ((
    b3 as u64) << 32u64) | ((b4 as u64) << 24u64) | ((b5 as u64) << 16u64) | ((b6 as u64)
        << 8u64) | (b7 as u64));
    assert((v >> 56u64) as u8 == b0 && (v >> 48u64) as u8 == b1 && (v >> 40u64) as u8 == b2 && (v
        >> 32u64) as u8 == b3 && (v >> 24u64) as u8 == b4 && (v >> 16u64) as u8 == b5 && (v
        >> 8u64) as u8 == b6 && v as u8 == b7) by (bit_vector)
        requires
            v == ((b0 as u64) << 56u64) | ((b1 as u64) << 48u64) | ((b2 as u64) << 40u64) | ((
            b3 as u64) << 32u64) | ((b4 as u64) << 24u64) | ((b5 as u64) << 16u64) | ((
            b6 as u64) << 8u64) | (b7 as u64),
    ;
    assert(be_bytes(v) =~= b);
}

/// Prepends the given prefix to the given vector.
pub fn prepend(prefix: u8, vector: Vec<u8>) -> (res: Vec<u8>)
    ensures
        res@ == seq![prefix] + vector@,
{
    let mut res = vec![prefix];
    let mut vector = vector;
    res.append(&mut vector);
    res
}

/// Encodes an id as its eight big-endian bytes.
pub fn encode_id(id: u64) -> (res: Vec<u8>)
    ensures
        res@ == be_bytes(id),
{
    let res = vec![
        (id >> 56u64) as u8,
        (id >> 48u64) as u8,
        (id >> 40u64) as u8,
        (id >> 32u64) as u8,
        (id >> 24u64) as u8,
        (id >> 16u64) as u8,
        (id >> 8u64) as u8,
        id as u8,
    ];
    assert(res@ =~= be_bytes(id));
    res
}

/// Decodes an id stored as eight big-endian bytes.
pub fn decode_id(id: Vec<u8>) -> (res: Result<u64, LigatureSledError>)
    ensures
        id@.len() == 8 <==> res.is_ok(),
        res matches Ok(v) ==> be_bytes(v) == id@ && v == be_value(id@),
        res matches Err(e) ==> e == LigatureSledError::DecodingError,
{
    if id.len() == 8 {
        let v = ((id[0] as u64) << 56u64) | ((id[1] as u64) << 48u64) | ((id[2] as u64) << 40u64)
            | ((id[3] as u64) << 32u64) | ((id[4] as u64) << 24u64) | ((id[5] as u64) << 16u64)
            | ((id[6] as u64) << 8u64) | (id[7] as u64);
        proof {
            lemma_be_bytes_of_value(id@);
        }
        Ok(v)
    } else {
        Err(LigatureSledError::DecodingError)
    }
}


/// The word whose big-endian bytes encode an integer literal: the sign bit
/// is flipped, so that the byte order of encodings is the numeric order.
pub open spec fn integer_bits(v: i64) -> u64 {
    (v as u64) ^ SIGN_BIT
}

/// The word whose big-endian bytes encode a float literal of bit pattern
/// `bits`: negative numbers have all bits flipped, others the sign bit, so
/// that the byte order of encodings is the numeric order.
pub open spec fn float_bits(bits: u64) -> u64 {
    if bits & SIGN_BIT != 0 {
        !bits
    } else {
        bits ^ SIGN_BIT
    }
}

/// The eight body bytes of an integer literal.
pub open spec fn integer_body(v: i64) -> Seq<u8> {
    be_bytes(integer_bits(v))
}

/// The eight body bytes of a float literal of bit pattern `bits`.
pub open spec fn float_body(bits: u64) -> Seq<u8> {
    be_bytes(float_bits(bits))
}

/// The integer literal whose body is `b`.
pub open spec fn integer_of_body(b: Seq<u8>) -> i64 {
    (be_value(b) ^ SIGN_BIT) as i64
}

/// The bit pattern of the float literal whose body is `b`.
pub open spec fn float_of_body(b: Seq<u8>) -> u64 {
    let w = be_value(b);
    if w & SIGN_BIT != 0 {
        w ^ SIGN_BIT
    } else {
        !w
    }
}

/// Reading back the body of an integer or float literal gives the literal.
pub proof fn lemma_literal_bodies(v: i64, bits: u64)
    ensures
        integer_of_body(integer_body(v)) == v,
        float_of_body(float_body(bits)) == bits,
{
    lemma_be_value_of_bytes(integer_bits(v));
    lemma_be_value_of_bytes(float_bits(bits));
    assert((((v as u64) ^ 0x8000_0000_0000_0000u64) ^ 0x8000_0000_0000_0000u64) as i64 == v)
        by (bit_vector);
    assert(bits & 0x8000_0000_0000_0000u64 != 0 ==> (!bits) & 0x8000_0000_0000_0000u64 == 0
        && !(!bits) == bits) by (bit_vector);
    assert(bits & 0x8000_0000_0000_0000u64 == 0 ==> (bits ^ 0x8000_0000_0000_0000u64)
        & 0x8000_0000_0000_0000u64 != 0 && ((bits ^ 0x8000_0000_0000_0000u64)
        ^ 0x8000_0000_0000_0000u64) == bits) by (bit_vector);
}

/// Two byte strings of one length that agree before index `k` and differ
/// upward at `k` are in order.
proof fn lemma_bytes_lt_at(x: Seq<u8>, y: Seq<u8>, k: int)
    requires
        x.len() == y.len(),
        0 <= k < x.len(),
        forall|i: int| 0 <= i < k ==> x[i] == y[i],
        x[k] < y[k],
    ensures
        bytes_lt(x, y),
    decreases k,
{
    if k > 0 {
        lemma_bytes_lt_at(x.drop_first(), y.drop_first(), k - 1);
    }
}

/// Big-endian bytes keep the order of numbers.
pub proof fn lemma_be_bytes_order(a: u64, b: u64)
    requires
        a < b,
    ensures
        bytes_lt(be_bytes(a), be_bytes(b)),
{
    let x = be_bytes(a);
    let y = be_bytes(b);
    assert(((a >> 56u64) != (b >> 56u64) ==> ((a >> 56u64) as u8) < ((b >> 56u64) as u8))
        && ((a >> 56u64) == (b >> 56u64) && (a >> 48u64) != (b >> 48u64) ==> ((a >> 48u64) as u8) < ((b >> 48u64) as u8))
        && ((a >> 48u64) == (b >> 48u64) && (a >> 40u64) != (b >> 40u64) ==> ((a >> 40u64) as u8) < ((b >> 40u64) as u8))
        && ((a >> 40u64) == (b >> 40u64) && (a >> 32u64) != (b >> 32u64) ==> ((a >> 32u64) as u8) < ((b >> 32u64) as u8))
        && ((a >> 32u64) == (b >> 32u64) && (a >> 24u64) != (b >> 24u64) ==> ((a >> 24u64) as u8) < ((b >> 24u64) as u8))
        && ((a >> 24u64) == (b >> 24u64) && (a >> 16u64) != (b >> 16u64) ==> ((a >> 16u64) as u8) < ((b >> 16u64) as u8))
        && ((a >> 16u64) == (b >> 16u64) && (a >> 8u64) != (b >> 8u64) ==> ((a >> 8u64) as u8) < ((b >> 8u64) as u8))
        && ((a >> 8u64) == (b >> 8u64) ==> (a as u8) < (b as u8))
        && ((a >> 8u64) == (b >> 8u64) ==> (a >> 16u64) == (b >> 16u64))
        && ((a >> 16u64) == (b >> 16u64) ==> (a >> 24u64) == (b >> 24u64))
        && ((a >> 24u64) == (b >> 24u64) ==> (a >> 32u64) == (b >> 32u64))
        && ((a >> 32u64) == (b >> 32u64) ==> (a >> 40u64) == (b >> 40u64))
        && ((a >> 40u64) == (b >> 40u64) ==> (a >> 48u64) == (b >> 48u64))
        && ((a >> 48u64) == (b >> 48u64) ==> (a >> 56u64) == (b >> 56u64))) by (bit_vector)
        requires
            a < b,
    ;
    if (a >> 56u64) != (b >> 56u64) {
        lemma_bytes_lt_at(x, y, 0);
    } else if (a >> 48u64) != (b >> 48u64) {
        lemma_bytes_lt_at(x, y, 1);
    } else if (a >> 40u64) != (b >> 40u64) {
        lemma_bytes_lt_at(x, y, 2);
    } else if (a >> 32u64) != (b >> 32u64) {
        lemma_bytes_lt_at(x, y, 3);
    } else if (a >> 24u64) != (b >> 24u64) {
        lemma_bytes_lt_at(x, y, 4);
    } else if (a >> 16u64) != (b >> 16u64) {
        lemma_bytes_lt_at(x, y, 5);
    } else if (a >> 8u64) != (b >> 8u64) {
        lemma_bytes_lt_at(x, y, 6);
    } else {
        lemma_bytes_lt_at(x, y, 7);
    }
}

/// The body of a smaller integer comes first in the byte order of keys.
pub proof fn lemma_integer_body_order(i: i64, j: i64)
    requires
        i < j,
    ensures
        bytes_lt(integer_body(i), integer_body(j)),
{
    assert(((i as u64) ^ 0x8000_0000_0000_0000u64) < ((j as u64) ^ 0x8000_0000_0000_0000u64))
        by (bit_vector)
        requires
            i < j,
    ;
    lemma_be_bytes_order(integer_bits(i), integer_bits(j));
}

/// The order of IEEE-754 bit patterns that is the numeric order of the
/// floats they stand for: negative patterns first, the larger magnitude
/// first among them, then the others by magnitude.
pub open spec fn float_precedes(a: u64, b: u64) -> bool {
    ||| (a & SIGN_BIT != 0 && b & SIGN_BIT == 0)
    ||| (a & SIGN_BIT != 0 && b & SIGN_BIT != 0 && a > b)
    ||| (a & SIGN_BIT == 0 && b & SIGN_BIT == 0 && a < b)
}

/// The body of a float that precedes another comes first in the byte order of keys.
pub proof fn lemma_float_body_order(a: u64, b: u64)
    requires
        float_precedes(a, b),
    ensures
        bytes_lt(float_body(a), float_body(b)),
{
    assert(float_bits(a) < float_bits(b)) by {
        assert((a & 0x8000_0000_0000_0000u64 != 0 && b & 0x8000_0000_0000_0000u64 == 0) ==> !a < (b ^ 0x8000_0000_0000_0000u64)) by (bit_vector);
        assert((a & 0x8000_0000_0000_0000u64 != 0 && b & 0x8000_0000_0000_0000u64 != 0 && a > b) ==> !a < !b) by (bit_vector);
        assert((a & 0x8000_0000_0000_0000u64 == 0 && b & 0x8000_0000_0000_0000u64 == 0 && a < b) ==> (a ^ 0x8000_0000_0000_0000u64) < (b ^ 0x8000_0000_0000_0000u64)) by (bit_vector);
    }
    lemma_be_bytes_order(float_bits(a), float_bits(b));
}

/// Encodes an integer literal as a value body.
pub fn encode_integer(v: i64) -> (res: Vec<u8>)
    ensures
        res@ == integer_body(v),
{
    encode_id((v as u64) ^ SIGN_BIT)
}

/// Decodes the value body of an integer literal.
pub fn decode_integer(id: Vec<u8>) -> (res: Result<i64, LigatureSledError>)
    ensures
        id@.len() == 8 <==> res.is_ok(),
        res matches Ok(v) ==> integer_body(v) == id@ && v == integer_of_body(id@),
        res matches Err(e) ==> e == LigatureSledError::DecodingError,
{
    let w = decode_id(id)?;
    let v = (w ^ SIGN_BIT) as i64;
    assert(((((w ^ 0x8000_0000_0000_0000u64) as i64) as u64) ^ 0x8000_0000_0000_0000u64) == w)
        by (bit_vector);
    Ok(v)
}

/// Encodes a float literal, given as its bit pattern, as a value body.
pub fn encode_float(bits: u64) -> (res: Vec<u8>)
    ensures
        res@ == float_body(bits),
{
    if bits & SIGN_BIT != 0 {
        encode_id(!bits)
    } else {
        encode_id(bits ^ SIGN_BIT)
    }
}

/// Decodes the value body of a float literal into its bit pattern.
pub fn decode_float(id: Vec<u8>) -> (res: Result<u64, LigatureSledError>)
    ensures
        id@.len() == 8 <==> res.is_ok(),
        res matches Ok(bits) ==> float_body(bits) == id@ && bits == float_of_body(id@),
        res matches Err(e) ==> e == LigatureSledError::DecodingError,
{
    let w = decode_id(id)?;
    let bits = if w & SIGN_BIT != 0 {
        w ^ SIGN_BIT
    } else {
        !w
    };
    assert(w & 0x8000_0000_0000_0000u64 != 0 ==> (w ^ 0x8000_0000_0000_0000u64)
        & 0x8000_0000_0000_0000u64 == 0 && ((w ^ 0x8000_0000_0000_0000u64)
        ^ 0x8000_0000_0000_0000u64) == w) by (bit_vector);
    assert(w & 0x8000_0000_0000_0000u64 == 0 ==> (!w) & 0x8000_0000_0000_0000u64 != 0 && !(!w)
        == w) by (bit_vector);
    Ok(bits)
}

/// Relies on String::from_utf8, which succeeds iff the bytes are valid UTF-8
/// and then holds exactly the characters they encode.
#[verifier::external_body]
fn string_from_utf8(bytes: Vec<u8>) -> (res: Option<String>)
    ensures
        res.is_some() == valid_utf8(bytes@),
        res matches Some(s) ==> s@ == decode_utf8(bytes@),
{
    String::from_utf8(bytes).ok()
}

/// Encodes an attribute as the UTF-8 bytes of its name.
pub fn encode_attribute(attribute: &Attribute) -> (res: Vec<u8>)
    ensures
        res@ == encode_utf8(attribute@),
{
    attribute.name().as_bytes_vec()
}

/// Decodes an attribute from the UTF-8 bytes of its name.
pub fn decode_attribute(attribute: Vec<u8>) -> (res: Result<Attribute, LigatureSledError>)
    ensures
        res.is_ok() == (valid_utf8(attribute@) && crate::model::valid_attribute_name(
            decode_utf8(attribute@),
        )),
        res matches Ok(a) ==> a@ == decode_utf8(attribute@) && encode_utf8(a@) == attribute@,
        res matches Err(e) ==> e == LigatureSledError::DecodingError,
{
    let ghost bytes = attribute@;
    match string_from_utf8(attribute) {
        Some(name) => match Attribute::new(name.as_str()) {
            Ok(a) => {
                proof {
                    decode_utf8_encode_utf8(bytes);
                }
                Ok(a)
            },
            Err(_) => Err(LigatureSledError::DecodingError),
        },
        None => Err(LigatureSledError::DecodingError),
    }
}

/// Encodes a string literal as its UTF-8 bytes.
pub fn encode_string_literal(string: &str) -> (res: Vec<u8>)
    ensures
        res@ == encode_utf8(string@),
{
    string.as_bytes_vec()
}

/// Decodes a string literal from its UTF-8 bytes.
pub fn decode_string_literal(string: Vec<u8>) -> (res: Result<String, LigatureSledError>)
    ensures
        res.is_ok() == valid_utf8(string@),
        res matches Ok(s) ==> s@ == decode_utf8(string@) && encode_utf8(s@) == string@,
        res matches Err(e) ==> e == LigatureSledError::DecodingError,
{
    let ghost bytes = string@;
    match string_from_utf8(string) {
        Some(s) => {
            proof {
                decode_utf8_encode_utf8(bytes);
            }
            Ok(s)
        },
        None => Err(LigatureSledError::DecodingError),
    }
}

/// Encodes a prefix used to match dataset names.
pub fn encode_dataset_match(dataset_match: &str) -> (res: Vec<u8>)
    ensures
        res@ == encode_utf8(dataset_match@),
{
    dataset_match.as_bytes_vec()
}

/// Removes the first byte of `vector` and checks that it is `prefix`.
pub fn chomp_assert(prefix: u8, vector: Vec<u8>) -> (res: Result<Vec<u8>, LigatureSledError>)
    ensures
        res.is_ok() == (vector@.len() > 0 && vector@[0] == prefix),
        res matches Ok(rest) ==> vector@ == seq![prefix] + rest@,
        res matches Err(e) ==> e == LigatureSledError::DecodingError,
{
    let mut rest = vector;
    let first = chomp_u8(&mut rest)?;
    if first == prefix {
        Ok(rest)
    } else {
        Err(LigatureSledError::DecodingError)
    }
}


/// Removes a byte from the front of `vec`.
fn chomp_u8(vec: &mut Vec<u8>) -> (res: Result<u8, LigatureSledError>)
    ensures
        res.is_ok() == (old(vec)@.len() > 0),
        res matches Ok(b) ==> old(vec)@ == seq![b] + final(vec)@,
        res matches Err(e) ==> e == LigatureSledError::DecodingError && final(vec)@ == old(vec)@,
{
    if vec.len() == 0 {
        Err(LigatureSledError::DecodingError)
    } else {
        let b = vec.remove(0);
        assert(old(vec)@ =~= seq![b] + vec@);
        Ok(b)
    }
}

/// Removes eight bytes from the front of `vec`.
fn chomp_vec_u8(vec: &mut Vec<u8>) -> (res: Result<Vec<u8>, LigatureSledError>)
    ensures
        res.is_ok() == (old(vec)@.len() >= 8),
        res matches Ok(head) ==> head@.len() == 8 && old(vec)@ == head@ + final(vec)@,
        res matches Err(e) ==> e == LigatureSledError::DecodingError && final(vec)@ == old(vec)@,
{
    if vec.len() < 8 {
        Err(LigatureSledError::DecodingError)
    } else {
        let mut head = vec.split_off(8);
        std::mem::swap(vec, &mut head);
        assert(old(vec)@ =~= head@ + vec@);
        Ok(head)
    }
}

/// Removes a big-endian u64 from the front of `vec`.
fn chomp_u64(vec: &mut Vec<u8>) -> (res: Result<u64, LigatureSledError>)
    ensures
        res.is_ok() == (old(vec)@.len() >= 8),
        res matches Ok(n) ==> old(vec)@ == be_bytes(n) + final(vec)@,
        res matches Err(e) ==> e == LigatureSledError::DecodingError && final(vec)@ == old(vec)@,
{
    let head = chomp_vec_u8(vec)?;
    decode_id(head)
}

/// The resolved ids of a statement, as the index keys hold them.
pub struct StatementIDSet {
    pub entity_id: u64,
    pub attribute_id: u64,
    pub value_prefix: u8,
    /// An interned id, or the inline bytes of an integer or float literal.
    pub value_body: Vec<u8>,
    pub context_id: u64,
}

/// The mathematical content of a `StatementIDSet`.
pub struct IdSet {
    pub entity: u64,
    pub attribute: u64,
    pub value_prefix: u8,
    pub value_body: Seq<u8>,
    pub context: u64,
}

impl View for StatementIDSet {
    type V = IdSet;

    open spec fn view(&self) -> IdSet {
        IdSet {
            entity: self.entity_id,
            attribute: self.attribute_id,
            value_prefix: self.value_prefix,
            value_body: self.value_body@,
            context: self.context_id,
        }
    }
}

/// A value in key position: its type byte, then its eight body bytes.
pub open spec fn value_field(ids: IdSet) -> Seq<u8> {
    seq![ids.value_prefix] + ids.value_body
}

/// A value body of the fixed width that keys hold.
pub open spec fn well_formed_ids(ids: IdSet) -> bool {
    ids.value_body.len() == 8
}

/// The tags of the seven statement index keys.
pub open spec fn is_permutation_tag(tag: u8) -> bool {
    EAVC_PREFIX <= tag <= CEAV_PREFIX
}

/// The four fields of a statement in the order of the index with tag `tag`.
pub open spec fn permutation_body(tag: u8, ids: IdSet) -> Seq<u8> {
    let e = be_bytes(ids.entity);
    let a = be_bytes(ids.attribute);
    let v = value_field(ids);
    let c = be_bytes(ids.context);
    if tag == EAVC_PREFIX {
        e + a + v + c
    } else if tag == EVAC_PREFIX {
        e + v + a + c
    } else if tag == AEVC_PREFIX {
        a + e + v + c
    } else if tag == AVEC_PREFIX {
        a + v + e + c
    } else if tag == VEAC_PREFIX {
        v + e + a + c
    } else if tag == VAEC_PREFIX {
        v + a + e + c
    } else {
        c + e + a + v
    }
}

/// The index key of a statement under the index with tag `tag`.
pub open spec fn permutation_key(tag: u8, ids: IdSet) -> Seq<u8> {
    seq![tag] + permutation_body(tag, ids)
}

/// The tag of the `i`-th of the seven keys that `encode_statement_permutations` returns.
pub open spec fn permutation_tag(i: int) -> u8 {
    (EAVC_PREFIX + i) as u8
}

/// Where a key of the index with tag `tag` holds the entity id.
pub open spec fn entity_offset(tag: u8) -> int {
    if tag == EAVC_PREFIX || tag == EVAC_PREFIX || tag == CEAV_PREFIX {
        if tag == CEAV_PREFIX { 9 } else { 1 }
    } else if tag == AEVC_PREFIX {
        9
    } else if tag == VEAC_PREFIX {
        10
    } else {
        18
    }
}

/// Where a key of the index with tag `tag` holds the attribute id.
pub open spec fn attribute_offset(tag: u8) -> int {
    if tag == AEVC_PREFIX || tag == AVEC_PREFIX {
        1
    } else if tag == EAVC_PREFIX || tag == VAEC_PREFIX {
        if tag == EAVC_PREFIX { 9 } else { 10 }
    } else if tag == CEAV_PREFIX {
        17
    } else {
        18
    }
}

/// Where a key of the index with tag `tag` holds the value's type byte.
pub open spec fn value_offset(tag: u8) -> int {
    if tag == VEAC_PREFIX || tag == VAEC_PREFIX {
        1
    } else if tag == EVAC_PREFIX || tag == AVEC_PREFIX {
        9
    } else if tag == CEAV_PREFIX {
        25
    } else {
        17
    }
}

/// Where a key of the index with tag `tag` holds the context id.
pub open spec fn context_offset(tag: u8) -> int {
    if tag == CEAV_PREFIX {
        1
    } else {
        26
    }
}

/// A key that names one of the seven indexes and has the width of one.
pub open spec fn is_statement_key(k: Seq<u8>) -> bool {
    k.len() == 34 && is_permutation_tag(k[0])
}

/// The ids that a statement key holds, read at the offsets of its index.
pub open spec fn decode_key(k: Seq<u8>) -> IdSet {
    let tag = k[0];
    let vo = value_offset(tag);
    IdSet {
        entity: be_value(k.subrange(entity_offset(tag), entity_offset(tag) + 8)),
        attribute: be_value(k.subrange(attribute_offset(tag), attribute_offset(tag) + 8)),
        value_prefix: k[vo],
        value_body: k.subrange(vo + 1, vo + 9),
        context: be_value(k.subrange(context_offset(tag), context_offset(tag) + 8)),
    }
}

/// Decoding any of the seven index keys of a statement gives back its ids.
pub proof fn lemma_decode_permutation_key(tag: u8, ids: IdSet)
    requires
        is_permutation_tag(tag),
        well_formed_ids(ids),
    ensures
        is_statement_key(permutation_key(tag, ids)),
        decode_key(permutation_key(tag, ids)) == ids,
{
    let k = permutation_key(tag, ids);
    let e = be_bytes(ids.entity);
    let a = be_bytes(ids.attribute);
    let v = value_field(ids);
    let c = be_bytes(ids.context);
    lemma_be_value_of_bytes(ids.entity);
    lemma_be_value_of_bytes(ids.attribute);
    lemma_be_value_of_bytes(ids.context);
    let eo = entity_offset(tag);
    let ao = attribute_offset(tag);
    let vo = value_offset(tag);
    let co = context_offset(tag);
    assert(k.len() == 34);
    assert(k.subrange(eo, eo + 8) =~= e);
    assert(k.subrange(ao, ao + 8) =~= a);
    assert(k.subrange(co, co + 8) =~= c);
    assert(k.subrange(vo, vo + 9) =~= v);
    assert(k[vo] == v[0]);
    assert(k.subrange(vo + 1, vo + 9) =~= ids.value_body);
    assert(decode_key(k) =~= ids);
}

/// A statement key is the key, under its own index, of the ids it holds.
pub proof fn lemma_statement_key_canonical(k: Seq<u8>)
    requires
        is_statement_key(k),
    ensures
        well_formed_ids(decode_key(k)),
        permutation_key(k[0], decode_key(k)) == k,
{
    let tag = k[0];
    let ids = decode_key(k);
    let eo = entity_offset(tag);
    let ao = attribute_offset(tag);
    let vo = value_offset(tag);
    let co = context_offset(tag);
    lemma_be_bytes_of_value(k.subrange(eo, eo + 8));
    lemma_be_bytes_of_value(k.subrange(ao, ao + 8));
    lemma_be_bytes_of_value(k.subrange(co, co + 8));
    let e = k.subrange(eo, eo + 8);
    let a = k.subrange(ao, ao + 8);
    let c = k.subrange(co, co + 8);
    let v = k.subrange(vo, vo + 9);
    assert(value_field(ids) =~= v);
    if tag == EAVC_PREFIX {
        assert(k =~= seq![tag] + e + a + v + c);
    } else if tag == EVAC_PREFIX {
        assert(k =~= seq![tag] + e + v + a + c);
    } else if tag == AEVC_PREFIX {
        assert(k =~= seq![tag] + a + e + v + c);
    } else if tag == AVEC_PREFIX {
        assert(k =~= seq![tag] + a + v + e + c);
    } else if tag == VEAC_PREFIX {
        assert(k =~= seq![tag] + v + e + a + c);
    } else if tag == VAEC_PREFIX {
        assert(k =~= seq![tag] + v + a + e + c);
    } else {
        assert(k =~= seq![tag] + c + e + a + v);
    }
}

/// Concatenates a tag byte and four fields.
fn flatten(tag: u8, parts: [&Vec<u8>; 4]) -> (res: Vec<u8>)
    ensures
        res@ == seq![tag] + parts[0]@ + parts[1]@ + parts[2]@ + parts[3]@,
{
    let mut res: Vec<u8> = vec![tag];
    let mut p: usize = 0;
    while p < 4
        invariant
            0 <= p <= 4,
            res@ == seq![tag] + parts@.subrange(0, p as int).map_values(|v: &Vec<u8>| v@).flatten(),
        decreases 4 - p,
    {
        let part = parts[p];
        let mut i: usize = 0;
        while i < part.len()
            invariant
                0 <= i <= part@.len(),
                res@ == seq![tag] + parts@.subrange(0, p as int).map_values(|v: &Vec<u8>| v@).flatten()
                    + part@.subrange(0, i as int),
            decreases part@.len() - i,
        {
            res.push(part[i]);
            assert(part@.subrange(0, i + 1) =~= part@.subrange(0, i as int).push(part@[i as int]));
            i += 1;
        }
        proof {
            let done = parts@.subrange(0, p as int).map_values(|v: &Vec<u8>| v@);
            let next = parts@.subrange(0, p + 1).map_values(|v: &Vec<u8>| v@);
            assert(next =~= done.push(part@));
            done.lemma_flatten_push(part@);
            assert(part@.subrange(0, i as int) =~= part@);
        }
        p += 1;
    }
    proof {
        let all = parts@.subrange(0, 4).map_values(|v: &Vec<u8>| v@);
        assert(all =~= seq![parts[0]@, parts[1]@, parts[2]@, parts[3]@]);
        reveal_with_fuel(Seq::flatten, 5);
        assert(all.flatten() =~= parts[0]@ + parts[1]@ + parts[2]@ + parts[3]@);
    }
    res
}

/// The seven index keys of a statement, one per permutation, in tag order.
pub fn encode_statement_permutations(statement_ids: &StatementIDSet) -> (res: Vec<Vec<u8>>)
    ensures
        res@.len() == 7,
        forall|i: int|
            0 <= i < 7 ==> #[trigger] res@[i]@ == permutation_key(permutation_tag(i), statement_ids@),
{
    let entity = encode_id(statement_ids.entity_id);
    let attribute = encode_id(statement_ids.attribute_id);
    let value = prepend(statement_ids.value_prefix, statement_ids.value_body.clone());
    let context = encode_id(statement_ids.context_id);
    assert(value@ =~= value_field(statement_ids@));

    let eavc = flatten(EAVC_PREFIX, [&entity, &attribute, &value, &context]);
    let evac = flatten(EVAC_PREFIX, [&entity, &value, &attribute, &context]);
    let aevc = flatten(AEVC_PREFIX, [&attribute, &entity, &value, &context]);
    let avec = flatten(AVEC_PREFIX, [&attribute, &value, &entity, &context]);
    let veac = flatten(VEAC_PREFIX, [&value, &entity, &attribute, &context]);
    let vaec = flatten(VAEC_PREFIX, [&value, &attribute, &entity, &context]);
    let ceav = flatten(CEAV_PREFIX, [&context, &entity, &attribute, &value]);
    let res = vec![eavc, evac, aevc, avec, veac, vaec, ceav];
    proof {
        let ids = statement_ids@;
        assert forall|i: int| 0 <= i < 7 implies #[trigger] res@[i]@ == permutation_key(
            permutation_tag(i),
            ids,
        ) by {
            assert(res@[i]@ =~= permutation_key(permutation_tag(i), ids));
        }
    }
    res
}


/// Reads the fields of a key of the EAVC index, after its tag.
fn decode_eavc(statement: &mut Vec<u8>) -> (res: Result<StatementIDSet, LigatureSledError>)
    ensures
        res.is_ok() == (old(statement)@.len() >= 33),
        res matches Ok(ids) ==> well_formed_ids(ids@) && old(statement)@ == permutation_body(
            EAVC_PREFIX,
            ids@,
        ) + final(statement)@,
        res matches Err(e) ==> e == LigatureSledError::DecodingError,
{
    let entity_id = chomp_u64(statement)?;
    let attribute_id = chomp_u64(statement)?;
    let value_prefix = chomp_u8(statement)?;
    let value_body = chomp_vec_u8(statement)?;
    let context_id = chomp_u64(statement)?;
    let ids = StatementIDSet { entity_id, attribute_id, value_prefix, value_body, context_id };
    assert(old(statement)@ =~= permutation_body(EAVC_PREFIX, ids@) + statement@);
    Ok(ids)
}

/// Reads the fields of a key of the EVAC index, after its tag.
fn decode_evac(statement: &mut Vec<u8>) -> (res: Result<StatementIDSet, LigatureSledError>)
    ensures
        res.is_ok() == (old(statement)@.len() >= 33),
        res matches Ok(ids) ==> well_formed_ids(ids@) && old(statement)@ == permutation_body(
            EVAC_PREFIX,
            ids@,
        ) + final(statement)@,
        res matches Err(e) ==> e == LigatureSledError::DecodingError,
{
    let entity_id = chomp_u64(statement)?;
    let value_prefix = chomp_u8(statement)?;
    let value_body = chomp_vec_u8(statement)?;
    let attribute_id = chomp_u64(statement)?;
    let context_id = chomp_u64(statement)?;
    let ids = StatementIDSet { entity_id, attribute_id, value_prefix, value_body, context_id };
    assert(old(statement)@ =~= permutation_body(EVAC_PREFIX, ids@) + statement@);
    Ok(ids)
}

/// Reads the fields of a key of the AEVC index, after its tag.
fn decode_aevc(statement: &mut Vec<u8>) -> (res: Result<StatementIDSet, LigatureSledError>)
    ensures
        res.is_ok() == (old(statement)@.len() >= 33),
        res matches Ok(ids) ==> well_formed_ids(ids@) && old(statement)@ == permutation_body(
            AEVC_PREFIX,
            ids@,
        ) + final(statement)@,
        res matches Err(e) ==> e == LigatureSledError::DecodingError,
{
    let attribute_id = chomp_u64(statement)?;
    let entity_id = chomp_u64(statement)?;
    let value_prefix = chomp_u8(statement)?;
    let value_body = chomp_vec_u8(statement)?;
    let context_id = chomp_u64(statement)?;
    let ids = StatementIDSet { entity_id, attribute_id, value_prefix, value_body, context_id };
    assert(old(statement)@ =~= permutation_body(AEVC_PREFIX, ids@) + statement@);
    Ok(ids)
}

/// Reads the fields of a key of the AVEC index, after its tag.
fn decode_avec(statement: &mut Vec<u8>) -> (res: Result<StatementIDSet, LigatureSledError>)
    ensures
        res.is_ok() == (old(statement)@.len() >= 33),
        res matches Ok(ids) ==> well_formed_ids(ids@) && old(statement)@ == permutation_body(
            AVEC_PREFIX,
            ids@,
        ) + final(statement)@,
        res matches Err(e) ==> e == LigatureSledError::DecodingError,
{
    let attribute_id = chomp_u64(statement)?;
    let value_prefix = chomp_u8(statement)?;
    let value_body = chomp_vec_u8(statement)?;
    let entity_id = chomp_u64(statement)?;
    let context_id = chomp_u64(statement)?;
    let ids = StatementIDSet { entity_id, attribute_id, value_prefix, value_body, context_id };
    assert(old(statement)@ =~= permutation_body(AVEC_PREFIX, ids@) + statement@);
    Ok(ids)
}

/// Reads the fields of a key of the VEAC index, after its tag.
fn decode_veac(statement: &mut Vec<u8>) -> (res: Result<StatementIDSet, LigatureSledError>)
    ensures
        res.is_ok() == (old(statement)@.len() >= 33),
        res matches Ok(ids) ==> well_formed_ids(ids@) && old(statement)@ == permutation_body(
            VEAC_PREFIX,
            ids@,
        ) + final(statement)@,
        res matches Err(e) ==> e == LigatureSledError::DecodingError,
{
    let value_prefix = chomp_u8(statement)?;
    let value_body = chomp_vec_u8(statement)?;
    let entity_id = chomp_u64(statement)?;
    let attribute_id = chomp_u64(statement)?;
    let context_id = chomp_u64(statement)?;
    let ids = StatementIDSet { entity_id, attribute_id, value_prefix, value_body, context_id };
    assert(old(statement)@ =~= permutation_body(VEAC_PREFIX, ids@) + statement@);
    Ok(ids)
}

/// Reads the fields of a key of the VAEC index, after its tag.
fn decode_vaec(statement: &mut Vec<u8>) -> (res: Result<StatementIDSet, LigatureSledError>)
    ensures
        res.is_ok() == (old(statement)@.len() >= 33),
        res matches Ok(ids) ==> well_formed_ids(ids@) && old(statement)@ == permutation_body(
            VAEC_PREFIX,
            ids@,
        ) + final(statement)@,
        res matches Err(e) ==> e == LigatureSledError::DecodingError,
{
    let value_prefix = chomp_u8(statement)?;
    let value_body = chomp_vec_u8(statement)?;
    let attribute_id = chomp_u64(statement)?;
    let entity_id = chomp_u64(statement)?;
    let context_id = chomp_u64(statement)?;
    let ids = StatementIDSet { entity_id, attribute_id, value_prefix, value_body, context_id };
    assert(old(statement)@ =~= permutation_body(VAEC_PREFIX, ids@) + statement@);
    Ok(ids)
}

/// Reads the fields of a key of the CEAV index, after its tag.
fn decode_ceav(statement: &mut Vec<u8>) -> (res: Result<StatementIDSet, LigatureSledError>)
    ensures
        res.is_ok() == (old(statement)@.len() >= 33),
        res matches Ok(ids) ==> well_formed_ids(ids@) && old(statement)@ == permutation_body(
            CEAV_PREFIX,
            ids@,
        ) + final(statement)@,
        res matches Err(e) ==> e == LigatureSledError::DecodingError,
{
    let context_id = chomp_u64(statement)?;
    let entity_id = chomp_u64(statement)?;
    let attribute_id = chomp_u64(statement)?;
    let value_prefix = chomp_u8(statement)?;
    let value_body = chomp_vec_u8(statement)?;
    let ids = StatementIDSet { entity_id, attribute_id, value_prefix, value_body, context_id };
    assert(old(statement)@ =~= permutation_body(CEAV_PREFIX, ids@) + statement@);
    Ok(ids)
}

/// Decodes a statement index key, tag included, into the ids it holds.
pub fn decode_statement_permutation(statement: Vec<u8>) -> (res: Result<
    StatementIDSet,
    LigatureSledError,
>)
    ensures
        res.is_ok() == is_statement_key(statement@),
        res matches Ok(ids) ==> well_formed_ids(ids@) && ids@ == decode_key(statement@)
            && permutation_key(statement@[0], ids@) == statement@,
        res matches Err(e) ==> e == LigatureSledError::DecodingError,
{
    let mut statement = statement;
    let prefix = chomp_u8(&mut statement)?;
    let ghost rest = statement@;
    let ids = if prefix == EAVC_PREFIX {
        decode_eavc(&mut statement)
    } else if prefix == EVAC_PREFIX {
        decode_evac(&mut statement)
    } else if prefix == AEVC_PREFIX {
        decode_aevc(&mut statement)
    } else if prefix == AVEC_PREFIX {
        decode_avec(&mut statement)
    } else if prefix == VEAC_PREFIX {
        decode_veac(&mut statement)
    } else if prefix == VAEC_PREFIX {
        decode_vaec(&mut statement)
    } else if prefix == CEAV_PREFIX {
        decode_ceav(&mut statement)
    } else {
        Err(LigatureSledError::DecodingError)
    }?;
    if statement.len() != 0 {
        return Err(LigatureSledError::DecodingError);
    }
    proof {
        assert(statement@ =~= Seq::<u8>::empty());
        assert(rest =~= permutation_body(prefix, ids@));
        lemma_decode_permutation_key(prefix, ids@);
    }
    Ok(ids)
}

} // verus!
