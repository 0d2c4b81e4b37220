//! Reads of one dataset: full scans, pattern matches and context lookups.
use vstd::prelude::*;
use vstd::utf8::{decode_utf8, encode_utf8, encode_utf8_decode_utf8, encode_utf8_valid_utf8};
use crate::codec::{
    attribute_offset, be_bytes, decode_attribute, decode_id, encode_attribute,
    encode_float, encode_integer, encode_string_literal, entity_offset, is_statement_key,
    lemma_be_bytes_of_value, lemma_be_value_of_bytes, lemma_literal_bodies, value_offset,
    ATTRIBUTE_NAME_TO_ID_PREFIX, AEVC_PREFIX, AVEC_PREFIX, EVAC_PREFIX, VEAC_PREFIX,
    STRING_LITERAL_VALUE_TO_ID_PREFIX, is_permutation_tag, lemma_decode_permutation_key,
    permutation_key, ENTITY_ID_COUNTER_KEY, float_body, integer_body, lemma_statement_key_canonical,
    value_field, decode_float, decode_integer, decode_statement_permutation,
    decode_string_literal, decode_key, encode_id, prepend, well_formed_ids, IdSet,
    ATTRIBUTE_ID_TO_NAME_PREFIX, CEAV_PREFIX, EAVC_PREFIX, ENTITY_VALUE_PREFIX, FLOAT_VALUE_PREFIX,
    INTEGER_VALUE_PREFIX, STRING_LITERAL_ID_TO_VALUE_PREFIX, STRING_VALUE_PREFIX,
};
use crate::error::LigatureSledError;
use crate::layout::{
    all_loadable, attribute_id_key, attribute_loadable, context_prefix, key_loadable,
    key_statement, loaded_from_prefix, persisted_view, stored_value, tagged, value_loadable,
    value_view, Contents, attribute_name_key, dataset_inv, match_prefix, pattern_interned,
    statement_matches, string_text_key, value_key_field, ValueView, counter, is_key_of,
    resolved_ids, PersistedView, StatementView, loaded_from_range, loaded_texts_in_range,
    range_prefix, text_in_range, texts_listed, all_loadable_in_range, is_interned, ids_match,
    match_tag, lemma_seven_keys_of, seven_keys,
};
use crate::model::{valid_attribute_name, Attribute, Entity, PersistedStatement, Range, Statement, Value};
use crate::store::{
    bytes_lt, in_key_range, has_key_with_prefix, lemma_listings_agree, has_prefix, lists_keys_in_range, lists_keys_with_prefix,
    tree_contents, tree_get, tree_range, tree_scan_prefix,
};
use crate::write_tx::{context_is_shared, statement_added};

verus! {

/// A reader of one dataset, over the dataset's tree.
pub struct LigatureSledQueryTx {
    store: sled::Tree,
}

impl LigatureSledQueryTx {
    /// What the dataset's tree holds.
    pub closed spec fn contents(&self) -> Contents {
        tree_contents(self.store)
    }

    /// Opens a reader over a dataset's tree.
    pub fn new(store: sled::Tree) -> (res: Self)
        ensures
            res.contents() == tree_contents(store),
    {
        Self { store }
    }

    /// Reads the name of an attribute id.
    fn load_attribute(&self, attribute_id: u64) -> (res: Result<Attribute, LigatureSledError>)
        ensures
            res matches Ok(a) ==> attribute_loadable(self.contents(), attribute_id) && a@ == decode_utf8(
                self.contents()[attribute_id_key(attribute_id)],
            ),
            !self.contents().contains_key(attribute_id_key(attribute_id)) ==> res == Err::<
                Attribute,
                LigatureSledError,
            >(LigatureSledError::CorruptedInterning) || res == Err::<Attribute, LigatureSledError>(
                LigatureSledError::StoreError,
            ),
            attribute_loadable(self.contents(), attribute_id) ==> res is Ok || res == Err::<
                Attribute,
                LigatureSledError,
            >(LigatureSledError::StoreError),
            res matches Err(e) ==> e == LigatureSledError::StoreError || e
                == LigatureSledError::DecodingError || e == LigatureSledError::CorruptedInterning,
    {
        let key = prepend(ATTRIBUTE_ID_TO_NAME_PREFIX, encode_id(attribute_id));
        assert(key@ == attribute_id_key(attribute_id));
        match tree_get(&self.store, &key) {
            Ok(Some(name)) => decode_attribute(name),
            Ok(None) => Err(LigatureSledError::CorruptedInterning),
            Err(_) => Err(LigatureSledError::StoreError),
        }
    }

    /// Reads the value that a type byte and an eight-byte body stand for.
    fn load_value(&self, value_type: u8, value_body: Vec<u8>) -> (res: Result<Value, LigatureSledError>)
        requires
            value_body@.len() == 8,
        ensures
            res matches Ok(v) ==> value_loadable(self.contents(), value_type, value_body@)
                && value_view(v) == stored_value(self.contents(), value_type, value_body@),
            value_type == STRING_VALUE_PREFIX && !self.contents().contains_key(
                tagged(STRING_LITERAL_ID_TO_VALUE_PREFIX, value_body@),
            ) ==> res == Err::<Value, LigatureSledError>(LigatureSledError::CorruptedInterning)
                || res == Err::<Value, LigatureSledError>(LigatureSledError::StoreError),
            value_loadable(self.contents(), value_type, value_body@) ==> res is Ok || res == Err::<
                Value,
                LigatureSledError,
            >(LigatureSledError::StoreError),
            res matches Err(e) ==> e == LigatureSledError::StoreError || e
                == LigatureSledError::DecodingError || e == LigatureSledError::CorruptedInterning,
    {
        if value_type == ENTITY_VALUE_PREFIX {
            Ok(Value::Entity(Entity(decode_id(value_body)?)))
        } else if value_type == STRING_VALUE_PREFIX {
            let key = prepend(STRING_LITERAL_ID_TO_VALUE_PREFIX, value_body);
            match tree_get(&self.store, &key) {
                Ok(Some(text)) => Ok(Value::StringLiteral(decode_string_literal(text)?)),
                Ok(None) => Err(LigatureSledError::CorruptedInterning),
                Err(_) => Err(LigatureSledError::StoreError),
            }
        } else if value_type == INTEGER_VALUE_PREFIX {
            Ok(Value::IntegerLiteral(decode_integer(value_body)?))
        } else if value_type == FLOAT_VALUE_PREFIX {
            Ok(Value::FloatLiteral(decode_float(value_body)?))
        } else {
            Err(LigatureSledError::DecodingError)
        }
    }

    /// Reads back the persisted statement of a statement key.
    fn load_statement(&self, encoded_statement: Vec<u8>) -> (res: Result<
        PersistedStatement,
        LigatureSledError,
    >)
        ensures
            res matches Ok(ps) ==> key_loadable(self.contents(), encoded_statement@) && persisted_view(ps)
                == key_statement(self.contents(), encoded_statement@),
            key_loadable(self.contents(), encoded_statement@) ==> res is Ok || res == Err::<
                PersistedStatement,
                LigatureSledError,
            >(LigatureSledError::StoreError),
            res matches Err(e) ==> e == LigatureSledError::StoreError || e
                == LigatureSledError::DecodingError || e == LigatureSledError::CorruptedInterning,
    {
        let ghost k = encoded_statement@;
        let ids = decode_statement_permutation(encoded_statement)?;
        let attribute = self.load_attribute(ids.attribute_id)?;
        let value = self.load_value(ids.value_prefix, ids.value_body)?;
        Ok(
            PersistedStatement {
                statement: Statement { entity: Entity(ids.entity_id), attribute, value },
                context: Entity(ids.context_id),
            },
        )
    }

    /// Reads back the persisted statements of a list of keys.
    fn load_all(&self, keys: Vec<Vec<u8>>) -> (res: Result<Vec<PersistedStatement>, LigatureSledError>)
        ensures
            res matches Ok(v) ==> v@.len() == keys@.len() && forall|i: int|
                0 <= i < v@.len() ==> key_loadable(self.contents(), #[trigger] keys@[i]@) && persisted_view(v@[i])
                    == key_statement(self.contents(), keys@[i]@),
            (forall|i: int| 0 <= i < keys@.len() ==> key_loadable(self.contents(), #[trigger] keys@[i]@))
                ==> res is Ok || res == Err::<Vec<PersistedStatement>, LigatureSledError>(
                LigatureSledError::StoreError,
            ),
    {
        let mut out: Vec<PersistedStatement> = Vec::new();
        let mut i: usize = 0;
        while i < keys.len()
            invariant
                0 <= i <= keys@.len(),
                out@.len() == i,
                forall|j: int|
                    0 <= j < i ==> key_loadable(self.contents(), #[trigger] keys@[j]@) && persisted_view(out@[j])
                        == key_statement(self.contents(), keys@[j]@),
            decreases keys@.len() - i,
        {
            let key = keys[i].clone();
            assert(key@ =~= keys@[i as int]@);
            let ps = self.load_statement(key)?;
            out.push(ps);
            i += 1;
        }
        Ok(out)
    }

    /// Reads back the statements whose keys begin with `prefix`.
    fn scan_statements(&self, prefix: Vec<u8>) -> (res: Result<Vec<PersistedStatement>, LigatureSledError>)
        ensures
            res matches Ok(v) ==> loaded_from_prefix(self.contents(), prefix@, v@),
            all_loadable(self.contents(), prefix@) ==> res is Ok || res == Err::<
                Vec<PersistedStatement>,
                LigatureSledError,
            >(LigatureSledError::StoreError),
    {
        let keys = match tree_scan_prefix(&self.store, &prefix) {
            Ok(keys) => keys,
            Err(_) => {
                return Err(LigatureSledError::StoreError);
            },
        };
        let ghost kv = keys@;
        assert(forall|i: int| 0 <= i < kv.len() ==> self.contents().contains_key(#[trigger] kv[i]@) && has_prefix(kv[i]@, prefix@));
        let v = self.load_all(keys)?;
        assert(lists_keys_with_prefix(kv, self.contents(), prefix@));
        Ok(v)
    }

    /// All statements of the dataset, read from the entity-first index.
    pub fn all_statements(&self) -> (res: Result<Vec<PersistedStatement>, LigatureSledError>)
        ensures
            res matches Ok(v) ==> loaded_from_prefix(self.contents(), seq![EAVC_PREFIX], v@),
            all_loadable(self.contents(), seq![EAVC_PREFIX]) ==> res is Ok || res == Err::<
                Vec<PersistedStatement>,
                LigatureSledError,
            >(LigatureSledError::StoreError),
    {
        let prefix = vec![EAVC_PREFIX];
        assert(prefix@ =~= seq![EAVC_PREFIX]);
        self.scan_statements(prefix)
    }

    /// The statement stored under a context, found by the context-first index.
    pub fn statement_for_context(&self, context: &Entity) -> (res: Result<
        Option<PersistedStatement>,
        LigatureSledError,
    >)
        ensures
            res matches Ok(None) ==> !has_key_with_prefix(self.contents(), context_prefix(context.0)),
            res matches Ok(Some(ps)) ==> exists|k: Seq<u8>|
                #[trigger] self.contents().contains_key(k) && has_prefix(k, context_prefix(context.0))
                    && key_loadable(self.contents(), k) && persisted_view(ps) == key_statement(
                    self.contents(),
                    k,
                ),
            res == Err::<Option<PersistedStatement>, LigatureSledError>(LigatureSledError::DuplicateContext)
                ==> context_is_shared(self.contents(), context.0),
            context_is_shared(self.contents(), context.0) ==> res == Err::<
                Option<PersistedStatement>,
                LigatureSledError,
            >(LigatureSledError::DuplicateContext) || res == Err::<
                Option<PersistedStatement>,
                LigatureSledError,
            >(LigatureSledError::StoreError),
            all_loadable(self.contents(), context_prefix(context.0)) && !context_is_shared(
                self.contents(),
                context.0,
            ) ==> res is Ok || res == Err::<Option<PersistedStatement>, LigatureSledError>(
                LigatureSledError::StoreError,
            ),
    {
        let prefix = prepend(CEAV_PREFIX, encode_id(context.0));
        assert(prefix@ =~= context_prefix(context.0));
        let keys = match tree_scan_prefix(&self.store, &prefix) {
            Ok(keys) => keys,
            Err(_) => {
                return Err(LigatureSledError::StoreError);
            },
        };
        proof {
            let m = self.contents();
            if context_is_shared(m, context.0) {
                let (k1, k2) = choose|k1: Seq<u8>, k2: Seq<u8>|
                    k1 != k2 && #[trigger] m.contains_key(k1) && #[trigger] m.contains_key(k2) && has_prefix(k1, context_prefix(context.0))
                        && has_prefix(k2, context_prefix(context.0));
                let i1 = choose|i: int| 0 <= i < keys@.len() && #[trigger] keys@[i]@ == k1;
                let i2 = choose|i: int| 0 <= i < keys@.len() && #[trigger] keys@[i]@ == k2;
                assert(i1 != i2);
            }
        }
        if keys.len() == 0 {
            return Ok(None);
        }
        assert(self.contents().contains_key(keys@[0]@) && has_prefix(keys@[0]@, context_prefix(context.0)));
        if keys.len() > 1 {
            assert(self.contents().contains_key(keys@[1]@) && has_prefix(keys@[1]@, context_prefix(context.0)));
            assert(keys@[0]@ != keys@[1]@);
            return Err(LigatureSledError::DuplicateContext);
        }
        let key = keys[0].clone();
        assert(key@ =~= keys@[0]@);
        let ps = self.load_statement(key)?;
        Ok(Some(ps))
    }

    /// Looks up the id stored under an interning key, if any.
    fn lookup_id(&self, key: Vec<u8>) -> (res: Result<Option<u64>, LigatureSledError>)
        ensures
            res matches Ok(Some(id)) ==> self.contents().contains_key(key@) && self.contents()[key@]
                == be_bytes(id),
            res matches Ok(None) ==> !self.contents().contains_key(key@),
            res matches Err(e) ==> e == LigatureSledError::StoreError || (e == LigatureSledError::DecodingError
                && self.contents().contains_key(key@) && self.contents()[key@].len() != 8),
    {
        match tree_get(&self.store, &key) {
            Ok(Some(bytes)) => Ok(Some(decode_id(bytes)?)),
            Ok(None) => Ok(None),
            Err(_) => Err(LigatureSledError::StoreError),
        }
    }

    /// The statements that agree with each bound field of a pattern; an
    /// unbound field matches anything. The scan runs over the index whose
    /// leading fields are exactly the bound ones.
    pub fn match_statements(
        &self,
        entity: Option<Entity>,
        attribute: Option<Attribute>,
        value: Option<Value>,
    ) -> (res: Result<Vec<PersistedStatement>, LigatureSledError>)
        ensures
            res matches Ok(v) ==> {
                let (e, a, val) = pattern_view(entity, attribute, value);
                if pattern_interned(self.contents(), a, val) {
                    loaded_from_prefix(self.contents(), match_prefix(self.contents(), e, a, val), v@)
                } else {
                    v@.len() == 0
                }
            },
            res matches Ok(v) ==> (dataset_inv(self.contents()) ==> forall|i: int|
                0 <= i < v@.len() ==> {
                    let (e, a, val) = pattern_view(entity, attribute, value);
                    statement_matches(#[trigger] persisted_view(v@[i]).statement, e, a, val)
                }),
            ({
                let (e, a, val) = pattern_view(entity, attribute, value);
                dataset_inv(self.contents()) && (pattern_interned(self.contents(), a, val)
                    ==> all_loadable(self.contents(), match_prefix(self.contents(), e, a, val)))
            }) ==> res is Ok || res == Err::<Vec<PersistedStatement>, LigatureSledError>(
                LigatureSledError::StoreError,
            ),
    {
        let ghost m = self.contents();
        let ghost (e, a, val) = pattern_view(entity, attribute, value);
        let attribute_bytes = match &attribute {
            Some(attr) => {
                let name_key = prepend(ATTRIBUTE_NAME_TO_ID_PREFIX, encode_attribute(attr));
                assert(name_key@ == attribute_name_key(attr@));
                match self.lookup_id(name_key)? {
                    Some(id) => {
                        proof {
                            lemma_be_value_of_bytes(id);
                        }
                        Some(encode_id(id))
                    },
                    None => {
                        return Ok(Vec::new());
                    },
                }
            },
            None => None,
        };
        let value_bytes = match &value {
            Some(v) => {
                let (value_prefix, body) = match v {
                    Value::Entity(e) => (ENTITY_VALUE_PREFIX, encode_id(e.0)),
                    Value::StringLiteral(text) => {
                        let text_key = prepend(STRING_LITERAL_VALUE_TO_ID_PREFIX, encode_string_literal(text.as_str()));
                        assert(text_key@ == string_text_key(text@));
                        match self.lookup_id(text_key)? {
                            Some(id) => {
                                proof {
                                    lemma_be_value_of_bytes(id);
                                }
                                (STRING_VALUE_PREFIX, encode_id(id))
                            },
                            None => {
                                return Ok(Vec::new());
                            },
                        }
                    },
                    Value::IntegerLiteral(i) => (INTEGER_VALUE_PREFIX, encode_integer(*i)),
                    Value::FloatLiteral(f) => (FLOAT_VALUE_PREFIX, encode_float(*f)),
                };
                Some(prepend(value_prefix, body))
            },
            None => None,
        };
        let ghost ab = match &attribute_bytes { Some(b) => b@, None => Seq::<u8>::empty() };
        let ghost vb = match &value_bytes { Some(b) => b@, None => Seq::<u8>::empty() };
        proof {
            if let Some(name) = a {
                assert(ab == be_bytes(crate::layout::attribute_id(m, name)));
            }
            if let Some(vv) = val {
                assert(vb =~= value_key_field(m, vv));
            }
        }
        let prefix = match (&entity, attribute_bytes, value_bytes) {
            (None, None, None) => vec![EAVC_PREFIX],
            (Some(e), None, None) => prepend(EAVC_PREFIX, encode_id(e.0)),
            (Some(e), Some(ab), None) => join(prepend(EAVC_PREFIX, encode_id(e.0)), ab),
            (Some(e), Some(ab), Some(vb)) => join(join(prepend(EAVC_PREFIX, encode_id(e.0)), ab), vb),
            (Some(e), None, Some(vb)) => join(prepend(EVAC_PREFIX, encode_id(e.0)), vb),
            (None, Some(ab), None) => prepend(AEVC_PREFIX, ab),
            (None, Some(ab), Some(vb)) => join(prepend(AVEC_PREFIX, ab), vb),
            (None, None, Some(vb)) => prepend(VEAC_PREFIX, vb),
        };
        assert(prefix@ =~= match_prefix(m, e, a, val));
        let res = self.scan_statements(prefix)?;
        proof {
            if dataset_inv(m) {
                assert forall|i: int| 0 <= i < res@.len() implies statement_matches(#[trigger] persisted_view(res@[i]).statement, e, a, val) by {
                    let keys = choose|keys: Seq<Vec<u8>>| #![trigger lists_keys_with_prefix(keys, m, match_prefix(m, e, a, val))]
                        {
                            &&& lists_keys_with_prefix(keys, m, match_prefix(m, e, a, val))
                            &&& keys.len() == res@.len()
                            &&& forall|i: int|
                                0 <= i < res@.len() ==> key_loadable(m, #[trigger] keys[i]@) && persisted_view(res@[i])
                                    == key_statement(m, keys[i]@)
                        };
                    let k = keys[i]@;
                    assert(m.contains_key(k) && has_prefix(k, match_prefix(m, e, a, val)));
                    lemma_match_sound(m, k, e, a, val);
                }
            }
        }
        Ok(res)
    }

    /// The statements whose entity and attribute agree with the bound ones
    /// and whose value lies in `value`. Integer and float bodies keep the
    /// numeric order of their literals in the byte order of keys, so those
    /// ranges are one scan of the index range that they span; string
    /// literals are interned, so their range is checked on each text of the
    /// index prefix of string values.
    pub fn match_statements_range(
        &self,
        entity: Option<Entity>,
        attribute: Option<Attribute>,
        value: Range,
    ) -> (res: Result<Vec<PersistedStatement>, LigatureSledError>)
        ensures
            res matches Ok(v) ==> {
                let (e, a, _) = pattern_view(entity, attribute, None);
                let m = self.contents();
                if !pattern_interned(m, a, None) {
                    v@.len() == 0
                } else {
                    match value {
                        Range::IntegerLiteralRange { start, end } => loaded_from_range(
                            m,
                            range_prefix(m, e, a, INTEGER_VALUE_PREFIX) + integer_body(start),
                            range_prefix(m, e, a, INTEGER_VALUE_PREFIX) + integer_body(end),
                            v@,
                        ),
                        Range::FloatLiteralRange { start, end } => loaded_from_range(
                            m,
                            range_prefix(m, e, a, FLOAT_VALUE_PREFIX) + float_body(start),
                            range_prefix(m, e, a, FLOAT_VALUE_PREFIX) + float_body(end),
                            v@,
                        ),
                        Range::StringLiteralRange { start, end } => loaded_texts_in_range(
                            m,
                            range_prefix(m, e, a, STRING_VALUE_PREFIX),
                            encode_utf8(start@),
                            encode_utf8(end@),
                            v@,
                        ),
                    }
                }
            },
            ({
                let (e, a, _) = pattern_view(entity, attribute, None);
                let m = self.contents();
                dataset_inv(m) && (pattern_interned(m, a, None) ==> match value {
                    Range::IntegerLiteralRange { start, end } => all_loadable_in_range(
                        m,
                        range_prefix(m, e, a, INTEGER_VALUE_PREFIX) + integer_body(start),
                        range_prefix(m, e, a, INTEGER_VALUE_PREFIX) + integer_body(end),
                    ),
                    Range::FloatLiteralRange { start, end } => all_loadable_in_range(
                        m,
                        range_prefix(m, e, a, FLOAT_VALUE_PREFIX) + float_body(start),
                        range_prefix(m, e, a, FLOAT_VALUE_PREFIX) + float_body(end),
                    ),
                    Range::StringLiteralRange { .. } => all_loadable(
                        m,
                        range_prefix(m, e, a, STRING_VALUE_PREFIX),
                    ),
                })
            }) ==> res is Ok || res == Err::<Vec<PersistedStatement>, LigatureSledError>(
                LigatureSledError::StoreError,
            ),
    {
        let ghost m = self.contents();
        let ghost (e, a, _) = pattern_view(entity, attribute, None);
        let attribute_bytes = match &attribute {
            Some(attr) => {
                let name_key = prepend(ATTRIBUTE_NAME_TO_ID_PREFIX, encode_attribute(attr));
                assert(name_key@ == attribute_name_key(attr@));
                match self.lookup_id(name_key)? {
                    Some(id) => {
                        proof {
                            lemma_be_value_of_bytes(id);
                        }
                        Some(encode_id(id))
                    },
                    None => {
                        return Ok(Vec::new());
                    },
                }
            },
            None => None,
        };
        let ghost ab = match &attribute_bytes { Some(b) => b@, None => Seq::<u8>::empty() };
        proof {
            if let Some(name) = a {
                assert(ab == be_bytes(crate::layout::attribute_id(m, name)));
            }
        }
        let value_type = match &value {
            Range::StringLiteralRange { .. } => STRING_VALUE_PREFIX,
            Range::IntegerLiteralRange { .. } => INTEGER_VALUE_PREFIX,
            Range::FloatLiteralRange { .. } => FLOAT_VALUE_PREFIX,
        };
        let prefix = match (&entity, attribute_bytes) {
            (None, None) => vec![VEAC_PREFIX, value_type],
            (Some(e), None) => join(prepend(EVAC_PREFIX, encode_id(e.0)), vec![value_type]),
            (None, Some(ab)) => join(prepend(AVEC_PREFIX, ab), vec![value_type]),
            (Some(e), Some(ab)) => join(join(prepend(EAVC_PREFIX, encode_id(e.0)), ab), vec![value_type]),
        };
        assert(prefix@ =~= range_prefix(m, e, a, value_type));
        match value {
            Range::IntegerLiteralRange { start, end } => {
                let lo = join(prefix.clone(), encode_integer(start));
                let hi = join(prefix, encode_integer(end));
                self.scan_range(lo, hi)
            },
            Range::FloatLiteralRange { start, end } => {
                let lo = join(prefix.clone(), encode_float(start));
                let hi = join(prefix, encode_float(end));
                self.scan_range(lo, hi)
            },
            Range::StringLiteralRange { start, end } => {
                self.scan_texts(prefix, encode_string_literal(start.as_str()), encode_string_literal(end.as_str()))
            },
        }
    }

    /// Reads back the statements whose keys lie from `lo` to `hi`.
    fn scan_range(&self, lo: Vec<u8>, hi: Vec<u8>) -> (res: Result<Vec<PersistedStatement>, LigatureSledError>)
        ensures
            res matches Ok(v) ==> loaded_from_range(self.contents(), lo@, hi@, v@),
            all_loadable_in_range(self.contents(), lo@, hi@) ==> res is Ok || res == Err::<
                Vec<PersistedStatement>,
                LigatureSledError,
            >(LigatureSledError::StoreError),
    {
        let keys = match tree_range(&self.store, &lo, &hi) {
            Ok(keys) => keys,
            Err(_) => {
                return Err(LigatureSledError::StoreError);
            },
        };
        let ghost kv = keys@;
        assert(forall|i: int| 0 <= i < kv.len() ==> self.contents().contains_key(#[trigger] kv[i]@) && in_key_range(kv[i]@, lo@, hi@));
        let v = self.load_all(keys)?;
        assert(lists_keys_in_range(kv, self.contents(), lo@, hi@));
        Ok(v)
    }

    /// Reads back the statements whose keys begin with `prefix` and whose
    /// string literal lies from `lo` to `hi`.
    fn scan_texts(&self, prefix: Vec<u8>, lo: Vec<u8>, hi: Vec<u8>) -> (res: Result<
        Vec<PersistedStatement>,
        LigatureSledError,
    >)
        ensures
            res matches Ok(v) ==> loaded_texts_in_range(self.contents(), prefix@, lo@, hi@, v@),
            all_loadable(self.contents(), prefix@) ==> res is Ok || res == Err::<
                Vec<PersistedStatement>,
                LigatureSledError,
            >(LigatureSledError::StoreError),
    {
        let ghost m = self.contents();
        let keys = match tree_scan_prefix(&self.store, &prefix) {
            Ok(keys) => keys,
            Err(_) => {
                return Err(LigatureSledError::StoreError);
            },
        };
        let mut out: Vec<PersistedStatement> = Vec::new();
        let ghost mut chosen: Seq<Vec<u8>> = Seq::empty();
        let ghost mut picks: Seq<int> = Seq::empty();
        let mut i: usize = 0;
        while i < keys.len()
            invariant
                m == self.contents(),
                lists_keys_with_prefix(keys@, m, prefix@),
                0 <= i <= keys@.len(),
                chosen.len() == out@.len(),
                picks.len() == chosen.len(),
                forall|j: int| 0 <= j < picks.len() ==> 0 <= #[trigger] picks[j] < i && chosen[j] == keys@[picks[j]],
                forall|j: int, l: int| 0 <= j < l < picks.len() ==> picks[j] < picks[l],
                forall|j: int| 0 <= j < chosen.len() ==> text_in_range(m, #[trigger] chosen[j]@, lo@, hi@),
                forall|j: int|
                    0 <= j < out@.len() ==> key_loadable(m, #[trigger] chosen[j]@) && persisted_view(out@[j])
                        == key_statement(m, chosen[j]@),
                forall|l: int|
                    0 <= l < i && key_loadable(m, #[trigger] keys@[l]@) && text_in_range(m, keys@[l]@, lo@, hi@)
                        ==> exists|j: int| 0 <= j < picks.len() && picks[j] == l,
            decreases keys@.len() - i,
        {
            assert(m.contains_key(keys@[i as int]@) && has_prefix(keys@[i as int]@, prefix@));
            let ghost old_picks = picks;
            let key = keys[i].clone();
            assert(key@ =~= keys@[i as int]@);
            let ps = self.load_statement(key)?;
            let selected = match &ps.statement.value {
                Value::StringLiteral(text) => {
                    let bytes = encode_string_literal(text.as_str());
                    !bytes_less(&bytes, &lo) && bytes_less(&bytes, &hi)
                },
                _ => false,
            };
            assert(selected == text_in_range(m, keys@[i as int]@, lo@, hi@));
            if selected {
                proof {
                    chosen = chosen.push(keys@[i as int]);
                    picks = picks.push(i as int);
                }
                out.push(ps);
            }
            proof {
                assert forall|l: int|
                    0 <= l < i + 1 && key_loadable(m, #[trigger] keys@[l]@) && text_in_range(m, keys@[l]@, lo@, hi@)
                        implies exists|j: int| 0 <= j < picks.len() && picks[j] == l by {
                    if l == i {
                        assert(picks[picks.len() - 1] == l);
                    } else {
                        let j = choose|j: int| 0 <= j < old_picks.len() && old_picks[j] == l;
                        assert(picks[j] == l);
                    }
                }
            }
            i += 1;
        }
        proof {
            assert forall|j: int| 0 <= j < chosen.len() implies m.contains_key(#[trigger] chosen[j]@) && has_prefix(chosen[j]@, prefix@)
                && text_in_range(m, chosen[j]@, lo@, hi@) by {
                assert(chosen[j] == keys@[picks[j]]);
            }
            assert forall|k: Seq<u8>|
                #[trigger] m.contains_key(k) && has_prefix(k, prefix@) && key_loadable(m, k) && text_in_range(m, k, lo@, hi@)
                    implies exists|j: int| 0 <= j < chosen.len() && #[trigger] chosen[j]@ == k by {
                let l = choose|l: int| 0 <= l < keys@.len() && #[trigger] keys@[l]@ == k;
                let j = choose|j: int| 0 <= j < picks.len() && picks[j] == l;
                assert(chosen[j]@ == k);
            }
            assert forall|j: int, l: int| 0 <= j < chosen.len() && 0 <= l < chosen.len() && j != l implies chosen[j]@ != chosen[l]@ by {
                assert(picks[j] != picks[l]);
            }
            assert forall|j: int, l: int| 0 <= j < l < chosen.len() implies bytes_lt(#[trigger] chosen[j]@, #[trigger] chosen[l]@) by {
                assert(picks[j] < picks[l]);
                assert(keys@[picks[j]]@ == chosen[j]@ && keys@[picks[l]]@ == chosen[l]@);
            }
            assert(texts_listed(chosen, m, prefix@, lo@, hi@));
        }
        Ok(out)
    }
}

/// A pattern of `match_statements`, as the contracts speak of it.
pub open spec fn pattern_view(
    entity: Option<Entity>,
    attribute: Option<Attribute>,
    value: Option<Value>,
) -> (Option<u64>, Option<Seq<char>>, Option<ValueView>) {
    (
        match entity {
            Some(e) => Some(e.0),
            None => None,
        },
        match attribute {
            Some(a) => Some(a@),
            None => None,
        },
        match value {
            Some(v) => Some(value_view(v)),
            None => None,
        },
    )
}

/// Concatenates two byte vectors.
fn join(a: Vec<u8>, b: Vec<u8>) -> (res: Vec<u8>)
    ensures
        res@ == a@ + b@,
{
    let mut res = a;
    let mut b = b;
    res.append(&mut b);
    res
}

/// A key of `m` under the scanned prefix of a pattern holds a statement that
/// agrees with the pattern.
proof fn lemma_match_sound(
    m: Contents,
    k: Seq<u8>,
    e: Option<u64>,
    a: Option<Seq<char>>,
    v: Option<ValueView>,
)
    requires
        dataset_inv(m),
        pattern_interned(m, a, v),
        m.contains_key(k),
        has_prefix(k, match_prefix(m, e, a, v)),
    ensures
        statement_matches(key_statement(m, k).statement, e, a, v),
{
    let p = match_prefix(m, e, a, v);
    assert(k[0] == p[0]) by {
        assert(k.subrange(0, p.len() as int)[0] == k[0]);
    }
    assert(is_statement_key(k));
    let tag = k[0];
    let ids = decode_key(k);
    assert(k.subrange(0, p.len() as int) == p);
    if let Some(e) = e {
        let o = entity_offset(tag);
        assert(p.subrange(o, o + 8) =~= be_bytes(e));
        assert(k.subrange(o, o + 8) =~= p.subrange(o, o + 8));
        lemma_be_value_of_bytes(e);
    }
    if let Some(name) = a {
        let o = attribute_offset(tag);
        let aid = crate::layout::attribute_id(m, name);
        assert(p.subrange(o, o + 8) =~= be_bytes(aid));
        assert(k.subrange(o, o + 8) =~= p.subrange(o, o + 8));
        lemma_be_value_of_bytes(aid);
        assert(m[attribute_name_key(name)].len() == 8);
        lemma_be_bytes_of_value(m[attribute_name_key(name)]);
        assert(attribute_name_key(name) == tagged(ATTRIBUTE_NAME_TO_ID_PREFIX, encode_utf8(name)));
        assert(m[attribute_id_key(aid)] == encode_utf8(name));
        encode_utf8_decode_utf8(name);
    }
    if let Some(vv) = v {
        let o = value_offset(tag);
        let f = value_key_field(m, vv);
        assert(p.subrange(o, o + 9) =~= f);
        assert(k.subrange(o, o + 9) =~= p.subrange(o, o + 9));
        assert(ids.value_prefix == f[0]);
        assert(ids.value_body =~= f.subrange(1, 9));
        match vv {
            ValueView::Entity(id) => {
                lemma_be_value_of_bytes(id);
            },
            ValueView::StringLiteral(t) => {
                assert(m[string_text_key(t)].len() == 8);
                lemma_be_bytes_of_value(m[string_text_key(t)]);
                assert(string_text_key(t) == tagged(STRING_LITERAL_VALUE_TO_ID_PREFIX, encode_utf8(t)));
                assert(m.contains_key(tagged(STRING_LITERAL_VALUE_TO_ID_PREFIX, encode_utf8(t))));
                assert(ids.value_body == m[string_text_key(t)]);
                assert(m[tagged(STRING_LITERAL_ID_TO_VALUE_PREFIX, ids.value_body)] == encode_utf8(t));
                encode_utf8_decode_utf8(t);
            },
            ValueView::IntegerLiteral(i) => {
                lemma_literal_bodies(i, 0);
            },
            ValueView::FloatLiteral(bits) => {
                lemma_literal_bodies(0, bits);
            },
        }
    }
}

/// Compares two byte strings in lexicographic order.
fn bytes_less(a: &Vec<u8>, b: &Vec<u8>) -> (res: bool)
    ensures
        res == bytes_lt(a@, b@),
{
    let mut i: usize = 0;
    assert(a@.skip(0) =~= a@ && b@.skip(0) =~= b@);
    while i < a.len() && i < b.len()
        invariant
            0 <= i <= a@.len(),
            i <= b@.len(),
            bytes_lt(a@, b@) == bytes_lt(a@.skip(i as int), b@.skip(i as int)),
        decreases a@.len() - i,
    {
        if a[i] != b[i] {
            assert(a@.skip(i as int)[0] == a@[i as int]);
            assert(b@.skip(i as int)[0] == b@[i as int]);
            return a[i] < b[i];
        }
        assert(a@.skip(i as int).drop_first() =~= a@.skip(i + 1));
        assert(b@.skip(i as int).drop_first() =~= b@.skip(i + 1));
        i += 1;
    }
    i == a.len() && i < b.len()
}

/// Two reads of the statements under one prefix of one tree give the same
/// statements in the same order: two calls of `all_statements` or of
/// `match_statements` with no write between them agree.
pub proof fn lemma_scans_agree(m: Contents, p: Seq<u8>, v1: Seq<PersistedStatement>, v2: Seq<PersistedStatement>)
    requires
        loaded_from_prefix(m, p, v1),
        loaded_from_prefix(m, p, v2),
    ensures
        v1.len() == v2.len(),
        forall|i: int| 0 <= i < v1.len() ==> #[trigger] persisted_view(v1[i]) == persisted_view(v2[i]),
{
    let k1 = choose|keys: Seq<Vec<u8>>|
        #![trigger lists_keys_with_prefix(keys, m, p)]
        {
            &&& lists_keys_with_prefix(keys, m, p)
            &&& keys.len() == v1.len()
            &&& forall|i: int|
                0 <= i < v1.len() ==> key_loadable(m, #[trigger] keys[i]@) && persisted_view(v1[i])
                    == key_statement(m, keys[i]@)
        };
    let k2 = choose|keys: Seq<Vec<u8>>|
        #![trigger lists_keys_with_prefix(keys, m, p)]
        {
            &&& lists_keys_with_prefix(keys, m, p)
            &&& keys.len() == v2.len()
            &&& forall|i: int|
                0 <= i < v2.len() ==> key_loadable(m, #[trigger] keys[i]@) && persisted_view(v2[i])
                    == key_statement(m, keys[i]@)
        };
    lemma_listings_agree(k1, k2, m, p);
    assert forall|i: int| 0 <= i < v1.len() implies #[trigger] persisted_view(v1[i]) == persisted_view(v2[i]) by {
        assert(k1[i]@ == k2[i]@);
    }
}

/// Every stored statement whose ids carry the bound fields of a pattern is
/// found by `match_statements`: its key under the scanned index is stored,
/// begins with the scanned prefix, and reads back as the same statement.
pub proof fn lemma_match_complete(
    m: Contents,
    k: Seq<u8>,
    e: Option<u64>,
    a: Option<Seq<char>>,
    v: Option<ValueView>,
)
    requires
        seven_keys(m),
        m.contains_key(k),
        is_statement_key(k),
        ids_match(m, decode_key(k), e, a, v),
    ensures
        m.contains_key(permutation_key(match_tag(e, a, v), decode_key(k))),
        has_prefix(permutation_key(match_tag(e, a, v), decode_key(k)), match_prefix(m, e, a, v)),
        key_statement(m, permutation_key(match_tag(e, a, v), decode_key(k))) == key_statement(m, k),
{
    let ids = decode_key(k);
    let t = match_tag(e, a, v);
    lemma_seven_keys_of(m, k);
    lemma_statement_key_canonical(k);
    assert(is_permutation_tag(t));
    lemma_decode_permutation_key(t, ids);
    lemma_match_prefix(m, ids, e, a, v);
}

/// The key of a statement under the index that a pattern scans begins with
/// the pattern's prefix, when the statement's ids carry the bound fields.
proof fn lemma_match_prefix(m: Contents, ids: IdSet, e: Option<u64>, a: Option<Seq<char>>, v: Option<ValueView>)
    requires
        well_formed_ids(ids),
        ids_match(m, ids, e, a, v),
    ensures
        has_prefix(permutation_key(match_tag(e, a, v), ids), match_prefix(m, e, a, v)),
{
    let pk = permutation_key(match_tag(e, a, v), ids);
    let p = match_prefix(m, e, a, v);
    if let Some(vv) = v {
        assert(value_field(ids) =~= value_key_field(m, vv));
    }
    assert(pk.subrange(0, p.len() as int) =~= p);
}

/// Looking up the context that `add_statement` returned finds exactly one
/// stored statement, readable, and equal to the one added.
pub proof fn lemma_added_statement_found(m0: Contents, s: StatementView, c: u64, m1: Contents)
    requires
        dataset_inv(m0),
        statement_added(m0, s, c, m1),
        dataset_inv(m1),
        valid_attribute_name(s.attribute),
    ensures
        has_key_with_prefix(m1, context_prefix(c)),
        !context_is_shared(m1, c),
        all_loadable(m1, context_prefix(c)),
        forall|k: Seq<u8>|
            #[trigger] m1.contains_key(k) && has_prefix(k, context_prefix(c)) ==> key_statement(m1, k)
                == (PersistedView { statement: s, context: c }),
{
    let ids = resolved_ids(m1, s, c);
    let kc = permutation_key(CEAV_PREFIX, ids);
    lemma_added_key_unique(m0, s, c, m1);
    lemma_added_key_reads_back(s, c, m1);
    assert(m1.contains_key(kc) && has_prefix(kc, context_prefix(c)));
}

/// The context index holds one key of the context of a statement just
/// added: the statement's own.
proof fn lemma_added_key_unique(m0: Contents, s: StatementView, c: u64, m1: Contents)
    requires
        dataset_inv(m0),
        statement_added(m0, s, c, m1),
        dataset_inv(m1),
    ensures
        m1.contains_key(permutation_key(CEAV_PREFIX, resolved_ids(m1, s, c))),
        has_prefix(permutation_key(CEAV_PREFIX, resolved_ids(m1, s, c)), context_prefix(c)),
        forall|k: Seq<u8>|
            #[trigger] m1.contains_key(k) && has_prefix(k, context_prefix(c)) ==> k == permutation_key(
                CEAV_PREFIX,
                resolved_ids(m1, s, c),
            ),
{
    let ids = resolved_ids(m1, s, c);
    let kc = permutation_key(CEAV_PREFIX, ids);
    let p = context_prefix(c);
    assert(m1[attribute_name_key(s.attribute)].len() == 8);
    if let ValueView::StringLiteral(t) = s.value {
        assert(m1[string_text_key(t)].len() == 8);
    }
    assert(well_formed_ids(ids));
    assert(m1.contains_key(kc));
    assert(kc.subrange(0, p.len() as int) =~= p);
    assert forall|k: Seq<u8>| #[trigger] m1.contains_key(k) && has_prefix(k, p) implies k == kc by {
        assert(k[0] == k.subrange(0, p.len() as int)[0]);
        assert(is_statement_key(k));
        assert(k.subrange(1, 9) =~= p.subrange(1, 9));
        lemma_be_value_of_bytes(c);
        assert(decode_key(k).context == c);
        if m0.contains_key(k) {
            assert(decode_key(k).context <= counter(m0, ENTITY_ID_COUNTER_KEY));
        }
        assert(is_key_of(k, ids));
        let tag = choose|tag: u8| is_permutation_tag(tag) && k == #[trigger] permutation_key(tag, ids);
        assert(k[0] == tag);
    }
}

/// The context key of a statement interned in `m` reads back as that statement.
proof fn lemma_added_key_reads_back(s: StatementView, c: u64, m: Contents)
    requires
        dataset_inv(m),
        is_interned(m, s),
        valid_attribute_name(s.attribute),
    ensures
        key_loadable(m, permutation_key(CEAV_PREFIX, resolved_ids(m, s, c))),
        key_statement(m, permutation_key(CEAV_PREFIX, resolved_ids(m, s, c)))
            == (PersistedView { statement: s, context: c }),
{
    let ids = resolved_ids(m, s, c);
    let kc = permutation_key(CEAV_PREFIX, ids);
    let name = s.attribute;
    assert(m[attribute_name_key(name)].len() == 8);
    lemma_be_bytes_of_value(m[attribute_name_key(name)]);
    if let ValueView::StringLiteral(t) = s.value {
        assert(m[string_text_key(t)].len() == 8);
        lemma_be_bytes_of_value(m[string_text_key(t)]);
    }
    assert(well_formed_ids(ids));
    lemma_decode_permutation_key(CEAV_PREFIX, ids);
    let aid = ids.attribute;
    assert(attribute_name_key(name) == tagged(ATTRIBUTE_NAME_TO_ID_PREFIX, encode_utf8(name)));
    assert(m[attribute_id_key(aid)] == encode_utf8(name));
    encode_utf8_decode_utf8(name);
    encode_utf8_valid_utf8(name);
    match s.value {
        ValueView::Entity(id) => {
            lemma_be_value_of_bytes(id);
        },
        ValueView::StringLiteral(t) => {
            assert(string_text_key(t) == tagged(STRING_LITERAL_VALUE_TO_ID_PREFIX, encode_utf8(t)));
            assert(m.contains_key(tagged(STRING_LITERAL_VALUE_TO_ID_PREFIX, encode_utf8(t))));
            assert(ids.value_body == m[string_text_key(t)]);
            assert(m[tagged(STRING_LITERAL_ID_TO_VALUE_PREFIX, ids.value_body)] == encode_utf8(t));
            encode_utf8_decode_utf8(t);
            encode_utf8_valid_utf8(t);
        },
        ValueView::IntegerLiteral(i) => {
            lemma_literal_bodies(i, 0);
        },
        ValueView::FloatLiteral(bits) => {
            lemma_literal_bodies(0, bits);
        },
    }
    assert(key_statement(m, kc) == (PersistedView { statement: s, context: c }));
}

} // verus!
