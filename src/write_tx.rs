//! Writes to one dataset: allocating entities, adding and removing statements.
use vstd::prelude::*;
use crate::codec::{
    be_bytes, be_value, decode_id, prepend, decode_key, encode_id, is_statement_key,
    lemma_be_value_of_bytes, lemma_be_bytes_of_value, lemma_statement_key_canonical, encode_statement_permutations, is_permutation_tag, permutation_key,
    permutation_tag, well_formed_ids, lemma_decode_permutation_key, IdSet, StatementIDSet,
    EAVC_PREFIX, AEVC_PREFIX, CEAV_PREFIX, VEAC_PREFIX, encode_attribute, encode_float, encode_integer, encode_string_literal,
    ENTITY_VALUE_PREFIX, FLOAT_VALUE_PREFIX, INTEGER_VALUE_PREFIX, STRING_VALUE_PREFIX,
    ATTRIBUTE_ID_COUNTER_KEY, ATTRIBUTE_ID_TO_NAME_PREFIX,
    ATTRIBUTE_NAME_TO_ID_PREFIX, STRING_LITERAL_ID_TO_VALUE_PREFIX,
    STRING_LITERAL_VALUE_TO_ID_PREFIX, ENTITY_ID_COUNTER_KEY, STRING_LITERAL_ID_COUNTER_KEY,
};
use crate::error::LigatureSledError;
use crate::layout::{
    counter, counter_key, counter_ok, dataset_inv, interning_ok, is_interning_table, is_key_of,
    tagged, with_statement, Contents, seven_keys, attribute_id_key, attribute_prefix,
    context_prefix, string_value_prefix, string_id_key, attribute_name_key, entities_valid, holds_statement,
    is_interned, resolved_ids, same_index, statement_view, string_text_key, StatementView, ValueView,
};
use crate::model::{Entity, Value, Statement, PersistedStatement};
use vstd::utf8::encode_utf8;
use crate::store::{
    lists_keys_with_prefix, batch_remove, has_key_with_prefix, has_prefix, tree_scan_prefix, batch_writes, batch_insert, batch_new, tree_apply_batch, tree_compare_and_swap, tree_contents, tree_get,
};

verus! {

/// A writer of one dataset, over the dataset's tree.
pub struct LigatureSledWriteTx {
    store: sled::Tree,
}

impl LigatureSledWriteTx {
    /// What the dataset's tree holds.
    pub closed spec fn contents(&self) -> Contents {
        tree_contents(self.store)
    }

    /// Opens a writer over a dataset's tree.
    pub fn new(store: sled::Tree) -> (res: Self)
        ensures
            res.contents() == tree_contents(store),
    {
        Self { store }
    }

    /// Reads the counter with key `id`; an absent counter is 0.
    fn read_id(&self, id: u8) -> (res: Result<u64, LigatureSledError>)
        ensures
            res matches Ok(n) ==> counter_ok(self.contents(), id) && n == counter(
                self.contents(),
                id,
            ),
            res matches Err(e) ==> e == LigatureSledError::StoreError || (e
                == LigatureSledError::DecodingError && !counter_ok(self.contents(), id)),
    {
        let key = vec![id];
        assert(key@ =~= counter_key(id));
        match tree_get(&self.store, &key) {
            Ok(Some(bytes)) => decode_id(bytes),
            Ok(None) => Ok(0),
            Err(_) => Err(LigatureSledError::StoreError),
        }
    }

    /// Returns the id of `entity` if the dataset has allocated it.
    fn check_entity(&self, entity: &Entity) -> (res: Result<u64, LigatureSledError>)
        ensures
            res matches Ok(id) ==> id == entity.0 && counter_ok(self.contents(), ENTITY_ID_COUNTER_KEY)
                && id <= counter(self.contents(), ENTITY_ID_COUNTER_KEY),
            res matches Err(e) ==> e == LigatureSledError::StoreError || (e
                == LigatureSledError::DecodingError && !counter_ok(
                self.contents(),
                ENTITY_ID_COUNTER_KEY,
            )) || (e == LigatureSledError::InvalidEntity && counter_ok(
                self.contents(),
                ENTITY_ID_COUNTER_KEY,
            ) && entity.0 > counter(self.contents(), ENTITY_ID_COUNTER_KEY)),
    {
        let current_id = self.read_id(ENTITY_ID_COUNTER_KEY)?;
        if entity.0 <= current_id {
            Ok(entity.0)
        } else {
            Err(LigatureSledError::InvalidEntity)
        }
    }

    /// Creates a new entity: bumps the entity counter in one atomic
    /// compare-and-swap and returns its new value.
    pub fn new_entity(&mut self) -> (res: Result<Entity, LigatureSledError>)
        ensures
            res matches Ok(e) ==> entity_allocated(old(self).contents(), e.0, final(self).contents()),
            res is Err ==> final(self).contents() == old(self).contents() || res == Err::<
                Entity,
                LigatureSledError,
            >(LigatureSledError::StoreError),
            res matches Err(e) ==> e != LigatureSledError::InvalidEntity,
            res is Ok && dataset_inv(old(self).contents()) ==> dataset_inv(final(self).contents()),
            counter_ok(old(self).contents(), ENTITY_ID_COUNTER_KEY) && counter(
                old(self).contents(),
                ENTITY_ID_COUNTER_KEY,
            ) == u64::MAX ==> res == Err::<Entity, LigatureSledError>(
                LigatureSledError::CounterOverflow,
            ) || res == Err::<Entity, LigatureSledError>(LigatureSledError::StoreError),
            counter_ok(old(self).contents(), ENTITY_ID_COUNTER_KEY) && counter(
                old(self).contents(),
                ENTITY_ID_COUNTER_KEY,
            ) < u64::MAX ==> res is Ok || res == Err::<Entity, LigatureSledError>(
                LigatureSledError::StoreError,
            ),
    {
        let key = vec![ENTITY_ID_COUNTER_KEY];
        assert(key@ =~= counter_key(ENTITY_ID_COUNTER_KEY));
        let current = match tree_get(&self.store, &key) {
            Ok(found) => found,
            Err(_) => {
                return Err(LigatureSledError::StoreError);
            },
        };
        let current_id = match &current {
            Some(bytes) => decode_id(bytes.clone())?,
            None => 0,
        };
        if current_id == u64::MAX {
            return Err(LigatureSledError::CounterOverflow);
        }
        let next_id = current_id + 1;
        match tree_compare_and_swap(&mut self.store, &key, current, encode_id(next_id)) {
            Ok(true) => {
                proof {
                    let m0 = old(self).contents();
                    let m1 = self.contents();
                    lemma_be_value_of_bytes(next_id);
                    if dataset_inv(m0) {
                        lemma_counter_bump_keeps_inv(m0, ENTITY_ID_COUNTER_KEY, next_id);
                    }
                }
                Ok(Entity(next_id))
            },
            Ok(false) => Err(LigatureSledError::StoreError),
            Err(_) => Err(LigatureSledError::StoreError),
        }
    }

    /// Looks `name` up in an interning table, or gives it the table's next
    /// id: the counter bump and both table entries go in one atomic batch.
    fn intern(&mut self, counter_tag: u8, name_tag: u8, id_tag: u8, name: Vec<u8>) -> (res: Result<
        u64,
        LigatureSledError,
    >)
        requires
            is_interning_table(counter_tag, name_tag, id_tag),
        ensures
            res matches Ok(id) ==> interned(
                old(self).contents(),
                counter_tag,
                name_tag,
                id_tag,
                name@,
                id,
                final(self).contents(),
            ),
            res is Err ==> final(self).contents() == old(self).contents() || res == Err::<
                u64,
                LigatureSledError,
            >(LigatureSledError::StoreError),
            res matches Err(e) ==> e != LigatureSledError::InvalidEntity,
            res is Ok && dataset_inv(old(self).contents()) ==> dataset_inv(final(self).contents()),
            !old(self).contents().contains_key(tagged(name_tag, name@)) && counter_ok(
                old(self).contents(),
                counter_tag,
            ) && counter(old(self).contents(), counter_tag) == u64::MAX ==> res == Err::<
                u64,
                LigatureSledError,
            >(LigatureSledError::CounterOverflow) || res == Err::<u64, LigatureSledError>(
                LigatureSledError::StoreError,
            ),
            interning_ok(old(self).contents(), counter_tag, name_tag, id_tag) && counter_ok(
                old(self).contents(),
                counter_tag,
            ) && counter(old(self).contents(), counter_tag) < u64::MAX ==> res is Ok || res
                == Err::<u64, LigatureSledError>(LigatureSledError::StoreError),
    {
        let name_key = prepend(name_tag, name.clone());
        assert(name_key@ == tagged(name_tag, name@));
        match tree_get(&self.store, &name_key) {
            Err(_) => Err(LigatureSledError::StoreError),
            Ok(Some(id_bytes)) => decode_id(id_bytes),
            Ok(None) => {
                let current = self.read_id(counter_tag)?;
                if current == u64::MAX {
                    return Err(LigatureSledError::CounterOverflow);
                }
                let id = current + 1;
                let counter_entry = vec![counter_tag];
                let id_key = prepend(id_tag, encode_id(id));
                assert(counter_entry@ =~= counter_key(counter_tag));
                let ghost (ck, nk, ik) = (counter_entry@, name_key@, id_key@);
                let mut batch = batch_new();
                batch_insert(&mut batch, counter_entry, encode_id(id));
                batch_insert(&mut batch, name_key, encode_id(id));
                batch_insert(&mut batch, id_key, name);
                match tree_apply_batch(&mut self.store, batch) {
                    Ok(()) => {
                        proof {
                            let m0 = old(self).contents();
                            let b = name@;
                            assert(ck[0] == counter_tag && nk[0] == name_tag && ik[0] == id_tag);
                            assert(self.contents() =~= m0.insert(ck, be_bytes(id)).insert(
                                nk,
                                be_bytes(id),
                            ).insert(ik, b));
                            if dataset_inv(m0) {
                                lemma_intern_keeps_inv(m0, counter_tag, name_tag, id_tag, b, id);
                            }
                        }
                        Ok(id)
                    },
                    Err(_) => Err(LigatureSledError::StoreError),
                }
            },
        }
    }

    /// Inserts the seven index keys of `ids`, with empty values, in one atomic batch.
    fn store_statement(&mut self, ids: &StatementIDSet) -> (res: Result<(), LigatureSledError>)
        ensures
            res is Ok ==> final(self).contents() == with_statement(old(self).contents(), ids@),
            res is Err ==> res == Err::<(), LigatureSledError>(LigatureSledError::StoreError),
    {
        let keys = encode_statement_permutations(ids);
        let mut batch = batch_new();
        let mut i: usize = 0;
        while i < keys.len()
            invariant
                keys@.len() == 7,
                0 <= i <= 7,
                forall|j: int| 0 <= j < 7 ==> #[trigger] keys@[j]@ == permutation_key(permutation_tag(j), ids@),
                batch_writes(batch) == Map::new(
                    |k: Seq<u8>| exists|j: int| 0 <= j < i && #[trigger] keys@[j]@ == k,
                    |k: Seq<u8>| Some(Seq::<u8>::empty()),
                ),
            decreases 7 - i,
        {
            let key = keys[i].clone();
            let empty: Vec<u8> = Vec::new();
            let ghost before = batch_writes(batch);
            batch_insert(&mut batch, key, empty);
            proof {
                assert(batch_writes(batch) =~= Map::new(
                    |k: Seq<u8>| exists|j: int| 0 <= j < i + 1 && #[trigger] keys@[j]@ == k,
                    |k: Seq<u8>| Some(Seq::<u8>::empty()),
                )) by {
                    assert forall|k: Seq<u8>| (exists|j: int| 0 <= j < i + 1 && #[trigger] keys@[j]@ == k)
                        == batch_writes(batch).contains_key(k) by {
                        if k == keys@[i as int]@ {
                        }
                    }
                }
            }
            i += 1;
        }
        match tree_apply_batch(&mut self.store, batch) {
            Ok(()) => {
                proof {
                    let m0 = old(self).contents();
                    let w = Map::new(
                        |k: Seq<u8>| exists|j: int| 0 <= j < 7 && #[trigger] keys@[j]@ == k,
                        |k: Seq<u8>| Some(Seq::<u8>::empty()),
                    );
                    assert forall|k: Seq<u8>| w.contains_key(k) == is_key_of(k, ids@) by {
                        if w.contains_key(k) {
                            let j = choose|j: int| 0 <= j < 7 && #[trigger] keys@[j]@ == k;
                            assert(is_permutation_tag(permutation_tag(j)));
                        }
                        if is_key_of(k, ids@) {
                            let tag = choose|tag: u8| is_permutation_tag(tag) && k == #[trigger] permutation_key(tag, ids@);
                            let j = tag - EAVC_PREFIX;
                            assert(permutation_tag(j) == tag);
                            assert(keys@[j]@ == k);
                        }
                    }
                    assert(self.contents() =~= with_statement(m0, ids@));
                }
                Ok(())
            },
            Err(_) => Err(LigatureSledError::StoreError),
        }
    }

    /// Adds a statement under a fresh context: checks its entities, interns
    /// its attribute and any string literal, allocates the context, and
    /// inserts its seven index keys in one atomic batch.
    pub fn add_statement(&mut self, statement: &Statement) -> (res: Result<
        PersistedStatement,
        LigatureSledError,
    >)
        ensures
            res matches Ok(ps) ==> ps.statement == *statement && statement_added(
                old(self).contents(),
                statement_view(*statement),
                ps.context.0,
                final(self).contents(),
            ),
            res matches Ok(ps) ==> added_frame(
                old(self).contents(),
                statement_view(*statement),
                resolved_ids(final(self).contents(), statement_view(*statement), ps.context.0),
                final(self).contents(),
            ),
            counter_ok(old(self).contents(), ENTITY_ID_COUNTER_KEY) && !entities_valid(
                old(self).contents(),
                statement_view(*statement),
            ) ==> (res == Err::<PersistedStatement, LigatureSledError>(
                LigatureSledError::InvalidEntity,
            ) || res == Err::<PersistedStatement, LigatureSledError>(LigatureSledError::StoreError))
                && final(self).contents() == old(self).contents(),
            res == Err::<PersistedStatement, LigatureSledError>(LigatureSledError::InvalidEntity)
                ==> final(self).contents() == old(self).contents() && !entities_valid(
                old(self).contents(),
                statement_view(*statement),
            ),
            counter_ok(old(self).contents(), ENTITY_ID_COUNTER_KEY) && !entities_valid(
                old(self).contents(),
                statement_view(*statement),
            ) ==> res is Err,
            res is Err && res != Err::<PersistedStatement, LigatureSledError>(
                LigatureSledError::StoreError,
            ) ==> same_index(old(self).contents(), final(self).contents()),
            dataset_inv(old(self).contents()) && res != Err::<PersistedStatement, LigatureSledError>(
                LigatureSledError::StoreError,
            ) ==> dataset_inv(final(self).contents()),
            dataset_inv(old(self).contents()) && entities_valid(
                old(self).contents(),
                statement_view(*statement),
            ) && counters_below_max(old(self).contents()) ==> res is Ok || res == Err::<
                PersistedStatement,
                LigatureSledError,
            >(LigatureSledError::StoreError),
    {
        let ghost m0 = self.contents();
        let ghost sv = statement_view(*statement);
        let entity_id = self.check_entity(&statement.entity)?;
        if let Value::Entity(e) = &statement.value {
            self.check_entity(e)?;
        }
        let attribute_id = self.intern(
            ATTRIBUTE_ID_COUNTER_KEY,
            ATTRIBUTE_NAME_TO_ID_PREFIX,
            ATTRIBUTE_ID_TO_NAME_PREFIX,
            encode_attribute(&statement.attribute),
        )?;
        let ghost ma = self.contents();
        proof {
            lemma_intern_frame(m0, ATTRIBUTE_ID_COUNTER_KEY, ATTRIBUTE_NAME_TO_ID_PREFIX, ATTRIBUTE_ID_TO_NAME_PREFIX, encode_utf8(sv.attribute), attribute_id, ma);
            assert(counter_key(STRING_LITERAL_ID_COUNTER_KEY)[0] == STRING_LITERAL_ID_COUNTER_KEY);
        }
        let (value_prefix, value_body) = match &statement.value {
            Value::Entity(e) => (ENTITY_VALUE_PREFIX, encode_id(e.0)),
            Value::StringLiteral(text) => {
                let id = self.intern(
                    STRING_LITERAL_ID_COUNTER_KEY,
                    STRING_LITERAL_VALUE_TO_ID_PREFIX,
                    STRING_LITERAL_ID_TO_VALUE_PREFIX,
                    encode_string_literal(text.as_str()),
                )?;
                proof {
                    lemma_intern_frame(ma, STRING_LITERAL_ID_COUNTER_KEY, STRING_LITERAL_VALUE_TO_ID_PREFIX, STRING_LITERAL_ID_TO_VALUE_PREFIX, encode_utf8(text@), id, self.contents());
                    lemma_be_value_of_bytes(id);
                }
                (STRING_VALUE_PREFIX, encode_id(id))
            },
            Value::IntegerLiteral(i) => (INTEGER_VALUE_PREFIX, encode_integer(*i)),
            Value::FloatLiteral(f) => (FLOAT_VALUE_PREFIX, encode_float(*f)),
        };
        let ghost ms = self.contents();
        proof {
            if !(sv.value is StringLiteral) {
                assert(ms == ma);
            }
        }
        let context = self.new_entity()?;
        let ghost me = self.contents();
        let ids = StatementIDSet {
            entity_id,
            attribute_id,
            value_prefix,
            value_body,
            context_id: context.0,
        };
        proof {
            lemma_be_value_of_bytes(attribute_id);
            assert(!is_statement_key(counter_key(ENTITY_ID_COUNTER_KEY)));
            assert(counter_key(ENTITY_ID_COUNTER_KEY) != attribute_name_key(sv.attribute)) by {
                assert(attribute_name_key(sv.attribute)[0] != ENTITY_ID_COUNTER_KEY);
            }
            if let ValueView::StringLiteral(t) = sv.value {
                assert(counter_key(ENTITY_ID_COUNTER_KEY) != string_text_key(t)) by {
                    assert(string_text_key(t)[0] != ENTITY_ID_COUNTER_KEY);
                }
            }
            assert(attribute_name_key(sv.attribute)[0] == ATTRIBUTE_NAME_TO_ID_PREFIX);
            assert(ms[attribute_name_key(sv.attribute)] == ma[attribute_name_key(sv.attribute)]);
            assert(me[attribute_name_key(sv.attribute)] == ma[attribute_name_key(sv.attribute)]);
            assert(crate::layout::attribute_id(me, sv.attribute) == attribute_id);
            if let ValueView::StringLiteral(t) = sv.value {
                assert(me[string_text_key(t)] == ms[string_text_key(t)]);
            }
            assert(ids@ == resolved_ids(me, sv, context.0));
            if dataset_inv(m0) {
                lemma_with_statement_keeps_inv(me, ids@);
            }
        }
        self.store_statement(&ids)?;
        proof {
            let m1 = self.contents();
            lemma_with_statement_frame(me, ids@);
            assert(!is_statement_key(attribute_name_key(sv.attribute))) by {
                assert(attribute_name_key(sv.attribute)[0] == ATTRIBUTE_NAME_TO_ID_PREFIX);
            }
            if let ValueView::StringLiteral(t) = sv.value {
                assert(!is_statement_key(string_text_key(t))) by {
                    assert(string_text_key(t)[0] == STRING_LITERAL_VALUE_TO_ID_PREFIX);
                }
            }
            assert(!is_statement_key(counter_key(ENTITY_ID_COUNTER_KEY)));
            assert(resolved_ids(m1, sv, context.0) == ids@);
            assert forall|tag: u8| is_permutation_tag(tag) implies #[trigger] m1.contains_key(permutation_key(tag, ids@)) by {
                assert(is_key_of(permutation_key(tag, ids@), ids@));
            }
            if let ValueView::StringLiteral(t) = sv.value {
                assert(crate::layout::string_id(m1, t) == be_value(value_body@));
            }
            assert forall|k: Seq<u8>| !add_may_write(m0, sv, ids@, m1, k) implies (#[trigger] m1.contains_key(k)
                == m0.contains_key(k) && (m0.contains_key(k) ==> m1[k] == m0[k])) by {
                assert(ma.contains_key(k) == m0.contains_key(k) && (m0.contains_key(k) ==> ma[k] == m0[k]));
                assert(ms.contains_key(k) == ma.contains_key(k) && (ma.contains_key(k) ==> ms[k] == ma[k]));
                assert(me.contains_key(k) == ms.contains_key(k) && (ms.contains_key(k) ==> me[k] == ms[k]));
            }
            assert forall|k: Seq<u8>| is_key_of(k, ids@) implies #[trigger] m1[k] == Seq::<u8>::empty() by {
            }
        }
        Ok(PersistedStatement { statement: statement.clone(), context })
    }

    /// Looks up the id that an interning table gave `name`, creating none.
    fn lookup_interned(&self, name_tag: u8, name: Vec<u8>) -> (res: Result<Option<u64>, LigatureSledError>)
        ensures
            res matches Ok(Some(id)) ==> self.contents().contains_key(tagged(name_tag, name@))
                && self.contents()[tagged(name_tag, name@)] == be_bytes(id),
            res matches Ok(None) ==> !self.contents().contains_key(tagged(name_tag, name@)),
            res matches Err(e) ==> e == LigatureSledError::StoreError || (e == LigatureSledError::DecodingError
                && self.contents().contains_key(tagged(name_tag, name@)) && self.contents()[tagged(
                name_tag,
                name@,
            )].len() != 8),
    {
        let key = prepend(name_tag, name);
        match tree_get(&self.store, &key) {
            Ok(Some(bytes)) => Ok(Some(decode_id(bytes)?)),
            Ok(None) => Ok(None),
            Err(_) => Err(LigatureSledError::StoreError),
        }
    }

    /// The ids of `statement` with context `context`, if its names are
    /// interned; interns nothing.
    fn lookup_statement_id_set(&self, statement: &Statement, context: &Entity) -> (res: Result<
        Option<StatementIDSet>,
        LigatureSledError,
    >)
        ensures
            res matches Ok(Some(ids)) ==> is_interned(self.contents(), statement_view(*statement))
                && entities_valid(self.contents(), statement_view(*statement))
                && ids@ == resolved_ids(self.contents(), statement_view(*statement), context.0)
                && well_formed_ids(ids@),
            res matches Ok(None) ==> !is_interned(self.contents(), statement_view(*statement)),
            res matches Err(e) ==> e == LigatureSledError::StoreError || e
                == LigatureSledError::DecodingError || (e == LigatureSledError::InvalidEntity
                && !entities_valid(self.contents(), statement_view(*statement))),
            counter_ok(self.contents(), ENTITY_ID_COUNTER_KEY) && !entities_valid(
                self.contents(),
                statement_view(*statement),
            ) ==> res == Err::<Option<StatementIDSet>, LigatureSledError>(
                LigatureSledError::InvalidEntity,
            ) || res == Err::<Option<StatementIDSet>, LigatureSledError>(LigatureSledError::StoreError),
            dataset_inv(self.contents()) && entities_valid(self.contents(), statement_view(*statement))
                ==> res is Ok || res == Err::<Option<StatementIDSet>, LigatureSledError>(
                LigatureSledError::StoreError,
            ),
    {
        let ghost m = self.contents();
        let ghost sv = statement_view(*statement);
        let entity_id = self.check_entity(&statement.entity)?;
        if let Value::Entity(e) = &statement.value {
            self.check_entity(e)?;
        }
        proof {
            assert(attribute_name_key(sv.attribute) == tagged(ATTRIBUTE_NAME_TO_ID_PREFIX, encode_utf8(sv.attribute)));
            if let ValueView::StringLiteral(t) = sv.value {
                assert(string_text_key(t) == tagged(STRING_LITERAL_VALUE_TO_ID_PREFIX, encode_utf8(t)));
            }
        }
        let attribute_id = match self.lookup_interned(
            ATTRIBUTE_NAME_TO_ID_PREFIX,
            encode_attribute(&statement.attribute),
        )? {
            Some(id) => id,
            None => {
                return Ok(None);
            },
        };
        let (value_prefix, value_body) = match &statement.value {
            Value::Entity(e) => (ENTITY_VALUE_PREFIX, encode_id(e.0)),
            Value::StringLiteral(text) => {
                match self.lookup_interned(
                    STRING_LITERAL_VALUE_TO_ID_PREFIX,
                    encode_string_literal(text.as_str()),
                )? {
                    Some(id) => {
                        proof {
                            lemma_be_value_of_bytes(id);
                        }
                        (STRING_VALUE_PREFIX, encode_id(id))
                    },
                    None => {
                        return Ok(None);
                    },
                }
            },
            Value::IntegerLiteral(i) => (INTEGER_VALUE_PREFIX, encode_integer(*i)),
            Value::FloatLiteral(f) => (FLOAT_VALUE_PREFIX, encode_float(*f)),
        };
        proof {
            lemma_be_value_of_bytes(attribute_id);
        }
        Ok(
            Some(
                StatementIDSet {
                    entity_id,
                    attribute_id,
                    value_prefix,
                    value_body,
                    context_id: context.0,
                },
            ),
        )
    }

    /// Removes a persisted statement: its seven index keys go in one atomic
    /// batch, together with the interning entries of its attribute and of
    /// its string literal when no other statement uses them. Returns whether
    /// the statement was there.
    #[verifier::rlimit(100)]
    pub fn remove_statement(&mut self, persisted_statement: &PersistedStatement) -> (res: Result<
        bool,
        LigatureSledError,
    >)
        ensures
            !has_key_with_prefix(old(self).contents(), context_prefix(persisted_statement.context.0))
                ==> final(self).contents() == old(self).contents() && (res == Ok::<
                bool,
                LigatureSledError,
            >(false) || res == Err::<bool, LigatureSledError>(LigatureSledError::StoreError)),
            res == Ok::<bool, LigatureSledError>(false) ==> final(self).contents() == old(
                self,
            ).contents(),
            res == Ok::<bool, LigatureSledError>(true) ==> statement_removed(
                old(self).contents(),
                statement_view(persisted_statement.statement),
                persisted_statement.context.0,
                final(self).contents(),
            ),
            dataset_inv(old(self).contents()) && statement_present(
                old(self).contents(),
                statement_view(persisted_statement.statement),
                persisted_statement.context.0,
            ) ==> res == Ok::<bool, LigatureSledError>(true) || res == Err::<bool, LigatureSledError>(
                LigatureSledError::StoreError,
            ),
            dataset_inv(old(self).contents()) && entities_valid(
                old(self).contents(),
                statement_view(persisted_statement.statement),
            ) && !is_interned(old(self).contents(), statement_view(persisted_statement.statement))
                && !context_is_shared(old(self).contents(), persisted_statement.context.0)
                ==> res == Ok::<bool, LigatureSledError>(false) || res == Err::<bool, LigatureSledError>(
                LigatureSledError::StoreError,
            ),
            res == Ok::<bool, LigatureSledError>(true) ==> removed_frame(
                old(self).contents(),
                statement_view(persisted_statement.statement),
                persisted_statement.context.0,
                final(self).contents(),
            ),
            res is Ok ==> forall|t: u8|
                t <= STRING_LITERAL_ID_COUNTER_KEY ==> #[trigger] counter(final(self).contents(), t)
                    == counter(old(self).contents(), t),
            context_is_shared(old(self).contents(), persisted_statement.context.0) ==> res
                == Err::<bool, LigatureSledError>(LigatureSledError::DuplicateContext) || res == Err::<
                bool,
                LigatureSledError,
            >(LigatureSledError::StoreError),
            counter_ok(old(self).contents(), ENTITY_ID_COUNTER_KEY) && !entities_valid(
                old(self).contents(),
                statement_view(persisted_statement.statement),
            ) && has_key_with_prefix(old(self).contents(), context_prefix(persisted_statement.context.0))
                && !context_is_shared(old(self).contents(), persisted_statement.context.0) ==> res
                == Err::<bool, LigatureSledError>(LigatureSledError::InvalidEntity) || res == Err::<
                bool,
                LigatureSledError,
            >(LigatureSledError::StoreError),
            dataset_inv(old(self).contents()) && counter_ok(old(self).contents(), ENTITY_ID_COUNTER_KEY)
                && entities_valid(old(self).contents(), statement_view(persisted_statement.statement))
                && is_interned(old(self).contents(), statement_view(persisted_statement.statement))
                && !context_is_shared(old(self).contents(), persisted_statement.context.0)
                && !old(self).contents().contains_key(
                permutation_key(
                    CEAV_PREFIX,
                    resolved_ids(
                        old(self).contents(),
                        statement_view(persisted_statement.statement),
                        persisted_statement.context.0,
                    ),
                ),
            ) ==> (res == Ok::<bool, LigatureSledError>(false) || res == Err::<bool, LigatureSledError>(
                LigatureSledError::StoreError,
            )) && final(self).contents() == old(self).contents(),
            res == Ok::<bool, LigatureSledError>(true) && dataset_inv(old(self).contents())
                ==> released_together(
                old(self).contents(),
                statement_view(persisted_statement.statement),
                final(self).contents(),
            ),
            res is Err && res != Err::<bool, LigatureSledError>(LigatureSledError::StoreError)
                ==> final(self).contents() == old(self).contents(),
            res is Ok ==> counter(final(self).contents(), ENTITY_ID_COUNTER_KEY) == counter(
                old(self).contents(),
                ENTITY_ID_COUNTER_KEY,
            ),
            res == Err::<bool, LigatureSledError>(LigatureSledError::DuplicateContext)
                ==> context_is_shared(old(self).contents(), persisted_statement.context.0),
            dataset_inv(old(self).contents()) && res != Err::<bool, LigatureSledError>(
                LigatureSledError::StoreError,
            ) ==> dataset_inv(final(self).contents()),
    {
        let ghost m0 = self.contents();
        let ghost sv = statement_view(persisted_statement.statement);
        let c = persisted_statement.context.0;
        let prefix = prepend(CEAV_PREFIX, encode_id(c));
        assert(prefix@ =~= context_prefix(c));
        let found = match tree_scan_prefix(&self.store, &prefix) {
            Ok(keys) => keys,
            Err(_) => {
                return Err(LigatureSledError::StoreError);
            },
        };
        proof {
            if statement_present(m0, sv, c) {
                let kc = permutation_key(CEAV_PREFIX, resolved_ids(m0, sv, c));
                assert(kc.subrange(0, 9) =~= context_prefix(c));
                assert(m0.contains_key(kc) && has_prefix(kc, context_prefix(c)));
            }
        }
        proof {
            if context_is_shared(m0, c) {
                let (k1, k2) = choose|k1: Seq<u8>, k2: Seq<u8>|
                    k1 != k2 && #[trigger] m0.contains_key(k1) && #[trigger] m0.contains_key(k2) && has_prefix(k1, context_prefix(c))
                        && has_prefix(k2, context_prefix(c));
                let i1 = choose|i: int| 0 <= i < found@.len() && #[trigger] found@[i]@ == k1;
                let i2 = choose|i: int| 0 <= i < found@.len() && #[trigger] found@[i]@ == k2;
                assert(i1 != i2);
                assert(found@.len() > 1);
            }
        }
        if found.len() == 0 {
            return Ok(false);
        }
        assert(m0.contains_key(found@[0]@) && has_prefix(found@[0]@, context_prefix(c)));
        if found.len() > 1 {
            proof {
                assert(found@[0]@ != found@[1]@);
                assert(m0.contains_key(found@[1]@) && has_prefix(found@[1]@, context_prefix(c)));
            }
            return Err(LigatureSledError::DuplicateContext);
        }
        let ids = match self.lookup_statement_id_set(&persisted_statement.statement, &persisted_statement.context)? {
            Some(ids) => ids,
            None => {
                return Ok(false);
            },
        };
        let ghost idv = ids@;
        let keys = encode_statement_permutations(&ids);
        proof {
            if statement_present(m0, sv, c) {
                let kc = permutation_key(CEAV_PREFIX, idv);
                assert(kc.subrange(0, 9) =~= context_prefix(c));
                assert(m0.contains_key(kc) && has_prefix(kc, context_prefix(c)));
                assert(keys@[6]@ == kc);
            }
        }
        proof {
            let kc = permutation_key(CEAV_PREFIX, idv);
            assert(keys@[6]@ == kc);
            if !m0.contains_key(kc) {
                assert(found@[0]@ != kc);
            }
        }
        if !bytes_equal(&found[0], &keys[6]) {
            return Ok(false);
        }
        let attribute_prefix_bytes = prepend(AEVC_PREFIX, encode_id(ids.attribute_id));
        let attribute_users = match tree_scan_prefix(&self.store, &attribute_prefix_bytes) {
            Ok(users) => users,
            Err(_) => {
                return Err(LigatureSledError::StoreError);
            },
        };
        let release_attribute = only_key(&attribute_users, &keys[2]);
        let mut value_prefix_bytes = vec![VEAC_PREFIX, STRING_VALUE_PREFIX];
        let mut body = ids.value_body.clone();
        assert(body@ =~= idv.value_body);
        value_prefix_bytes.append(&mut body);
        let is_string = ids.value_prefix == STRING_VALUE_PREFIX;
        let value_users = if is_string {
            match tree_scan_prefix(&self.store, &value_prefix_bytes) {
                Ok(users) => users,
                Err(_) => {
                    return Err(LigatureSledError::StoreError);
                },
            }
        } else {
            Vec::new()
        };
        let release_string = is_string && only_key(&value_users, &keys[4]);
        let mut batch = batch_new();
        let mut i: usize = 0;
        while i < keys.len()
            invariant
                keys@.len() == 7,
                0 <= i <= 7,
                forall|j: int| 0 <= j < 7 ==> #[trigger] keys@[j]@ == permutation_key(permutation_tag(j), idv),
                batch_writes(batch) == Map::new(
                    |k: Seq<u8>| exists|j: int| 0 <= j < i && #[trigger] keys@[j]@ == k,
                    |k: Seq<u8>| None::<Seq<u8>>,
                ),
            decreases 7 - i,
        {
            batch_remove(&mut batch, keys[i].clone());
            proof {
                assert(batch_writes(batch) =~= Map::new(
                    |k: Seq<u8>| exists|j: int| 0 <= j < i + 1 && #[trigger] keys@[j]@ == k,
                    |k: Seq<u8>| None::<Seq<u8>>,
                )) by {
                    assert forall|k: Seq<u8>| (exists|j: int| 0 <= j < i + 1 && #[trigger] keys@[j]@ == k)
                        == batch_writes(batch).contains_key(k) by {
                        if k == keys@[i as int]@ {
                        }
                    }
                }
            }
            i += 1;
        }
        let ghost w7 = batch_writes(batch);
        let ghost nk = attribute_name_key(sv.attribute);
        let ghost ik = attribute_id_key(idv.attribute);
        let ghost tk = match sv.value {
            ValueView::StringLiteral(t) => string_text_key(t),
            _ => Seq::<u8>::empty(),
        };
        let ghost sk = tagged(STRING_LITERAL_ID_TO_VALUE_PREFIX, idv.value_body);
        if release_attribute {
            batch_remove(&mut batch, prepend(ATTRIBUTE_NAME_TO_ID_PREFIX, encode_attribute(&persisted_statement.statement.attribute)));
            batch_remove(&mut batch, prepend(ATTRIBUTE_ID_TO_NAME_PREFIX, encode_id(ids.attribute_id)));
        }
        if release_string {
            if let Value::StringLiteral(text) = &persisted_statement.statement.value {
                batch_remove(&mut batch, prepend(STRING_LITERAL_VALUE_TO_ID_PREFIX, encode_string_literal(text.as_str())));
                batch_remove(&mut batch, prepend(STRING_LITERAL_ID_TO_VALUE_PREFIX, ids.value_body));
            }
        }
        proof {
            assert(nk.len() > 0 && nk[0] == ATTRIBUTE_NAME_TO_ID_PREFIX);
            assert(ik.len() > 0 && ik[0] == ATTRIBUTE_ID_TO_NAME_PREFIX);
            assert(sk.len() > 0 && sk[0] == STRING_LITERAL_ID_TO_VALUE_PREFIX);
            if is_string {
                assert(tk.len() > 0 && tk[0] == STRING_LITERAL_VALUE_TO_ID_PREFIX);
            }
            assert forall|k: Seq<u8>| w7.contains_key(k) == is_key_of(k, idv) by {
                if w7.contains_key(k) {
                    let j = choose|j: int| 0 <= j < 7 && #[trigger] keys@[j]@ == k;
                    assert(is_permutation_tag(permutation_tag(j)));
                }
                if is_key_of(k, idv) {
                    let tag = choose|tag: u8| is_permutation_tag(tag) && k == #[trigger] permutation_key(tag, idv);
                    let j = tag - EAVC_PREFIX;
                    assert(permutation_tag(j) == tag);
                    assert(keys@[j]@ == k);
                }
            }
        }
        let ghost removed = |k: Seq<u8>| removal_key(k, idv, release_attribute, nk, ik, release_string, tk, sk);
        proof {
            assert forall|k: Seq<u8>| #[trigger] batch_writes(batch).contains_key(k) == removed(k)
                && (batch_writes(batch).contains_key(k) ==> batch_writes(batch)[k] is None) by {
            }
        }
        match tree_apply_batch(&mut self.store, batch) {
            Ok(()) => {
                proof {
                    let m1 = self.contents();
                    assert forall|k: Seq<u8>| #[trigger] m1.contains_key(k) == (m0.contains_key(k) && !removed(k))
                        && (m1.contains_key(k) ==> m1[k] == m0[k]) by {
                    }
                    lemma_removal_facts(m0, m1, idv, removed, release_attribute, nk, ik, release_string, tk, sk);
                    assert forall|t: u8| t <= STRING_LITERAL_ID_COUNTER_KEY implies #[trigger] counter(m1, t) == counter(m0, t) by {
                        let ck = counter_key(t);
                        assert(ck.len() == 1 && ck[0] == t);
                        assert(!is_statement_key(ck));
                        assert(ck != nk && ck != ik && ck != sk);
                        if release_string {
                            assert(ck != tk);
                        }
                        if is_key_of(ck, idv) {
                            lemma_key_of(ck, idv);
                        }
                    }
                    assert forall|k: Seq<u8>| m0.contains_key(k) && !removed_may_delete(m0, sv, c, k) implies #[trigger] m1.contains_key(k) by {
                        if release_string {
                            assert(sv.value is StringLiteral);
                        }
                    }
                    assert(!removed(counter_key(ENTITY_ID_COUNTER_KEY))) by {
                        assert(!is_statement_key(counter_key(ENTITY_ID_COUNTER_KEY)));
                    }
                    assert(attribute_prefix_bytes@ =~= attribute_prefix(idv.attribute));
                    assert(keys@[2]@ == permutation_key(AEVC_PREFIX, idv));
                    lemma_only_own_key_removed(attribute_prefix(idv.attribute), keys@[2]@, idv, removed, release_attribute, nk, ik, release_string, tk, sk);
                    lemma_release(m0, m1, attribute_users@, attribute_prefix(idv.attribute), keys@[2]@, nk, removed, release_attribute);
                    if let ValueView::StringLiteral(t) = sv.value {
                        assert(is_string);
                        assert(value_prefix_bytes@ =~= string_value_prefix(idv.value_body));
                        assert(keys@[4]@ == permutation_key(VEAC_PREFIX, idv));
                        lemma_only_own_key_removed(string_value_prefix(idv.value_body), keys@[4]@, idv, removed, release_attribute, nk, ik, release_string, tk, sk);
                        lemma_release(m0, m1, value_users@, string_value_prefix(idv.value_body), keys@[4]@, tk, removed, release_string);
                    }
                    if dataset_inv(m0) {
                        let bn = encode_utf8(sv.attribute);
                        let bt = match sv.value {
                            ValueView::StringLiteral(t) => encode_utf8(t),
                            _ => Seq::<u8>::empty(),
                        };
                        assert(m0[nk].len() == 8);
                        lemma_be_bytes_of_value(m0[nk]);
                        assert(ik == tagged(ATTRIBUTE_ID_TO_NAME_PREFIX, m0[tagged(ATTRIBUTE_NAME_TO_ID_PREFIX, bn)]));
                        if release_string {
                            assert(m0[tk].len() == 8);
                            lemma_be_bytes_of_value(m0[tk]);
                            assert(sk == tagged(STRING_LITERAL_ID_TO_VALUE_PREFIX, m0[tagged(STRING_LITERAL_VALUE_TO_ID_PREFIX, bt)]));
                        }
                        assert forall|k: Seq<u8>| #[trigger] removed(k) implies is_statement_key(k)
                            || (release_attribute && (k == tagged(ATTRIBUTE_NAME_TO_ID_PREFIX, bn) || k == tagged(ATTRIBUTE_ID_TO_NAME_PREFIX, m0[tagged(ATTRIBUTE_NAME_TO_ID_PREFIX, bn)])))
                            || (release_string && (k == tagged(STRING_LITERAL_VALUE_TO_ID_PREFIX, bt) || k == tagged(STRING_LITERAL_ID_TO_VALUE_PREFIX, m0[tagged(STRING_LITERAL_VALUE_TO_ID_PREFIX, bt)]))) by {
                            if is_key_of(k, idv) {
                                lemma_key_of(k, idv);
                            }
                        }
                        lemma_removal_keeps_inv(m0, m1, removed, idv, release_attribute, bn, release_string, bt);
                    }
                    if dataset_inv(m0) {
                        assert(!removed(ik) == !release_attribute) by {
                            assert(!is_statement_key(ik));
                            assert(ik != nk);
                            if release_string {
                                assert(ik[0] != tk[0] && ik[0] != sk[0]);
                            }
                        }
                        if let ValueView::StringLiteral(t) = sv.value {
                            assert(!removed(sk) == !release_string) by {
                                assert(!is_statement_key(sk));
                                assert(sk[0] != nk[0] && sk[0] != ik[0]);
                                assert(sk != tk) by { assert(sk[0] != tk[0]); }
                            }
                            assert(m0[tk].len() == 8);
                            lemma_be_bytes_of_value(m0[tk]);
                            assert(m0.contains_key(tagged(STRING_LITERAL_VALUE_TO_ID_PREFIX, encode_utf8(t))));
                        }
                        assert(m0[nk].len() == 8);
                        lemma_be_bytes_of_value(m0[nk]);
                        assert(m0.contains_key(tagged(ATTRIBUTE_NAME_TO_ID_PREFIX, encode_utf8(sv.attribute))));
                    }
                }
                Ok(true)
            },
            Err(_) => Err(LigatureSledError::StoreError),
        }
    }

    /// Every write of this writer is applied atomically when it is made, so
    /// there is nothing left to discard.
    pub fn cancel(&self) -> (res: Result<(), LigatureSledError>)
        ensures
            res is Ok,
    {
        Ok(())
    }

    /// Every write of this writer is applied atomically when it is made, so
    /// there is nothing left to flush.
    pub fn commit(&self) -> (res: Result<(), LigatureSledError>)
        ensures
            res is Ok,
    {
        Ok(())
    }
}

/// `e` is the entity that a call of `new_entity` allocated from `m0`, leaving `m1`.
pub open spec fn entity_allocated(m0: Contents, e: u64, m1: Contents) -> bool {
    &&& counter_ok(m0, ENTITY_ID_COUNTER_KEY)
    &&& e == counter(m0, ENTITY_ID_COUNTER_KEY) + 1
    &&& m1 == m0.insert(counter_key(ENTITY_ID_COUNTER_KEY), be_bytes(e))
    &&& counter(m1, ENTITY_ID_COUNTER_KEY) == e
}

/// Raising a counter keeps the dataset invariant.
proof fn lemma_counter_bump_keeps_inv(m: Contents, tag: u8, next: u64)
    requires
        dataset_inv(m),
        tag == ENTITY_ID_COUNTER_KEY || tag == ATTRIBUTE_ID_COUNTER_KEY || tag
            == STRING_LITERAL_ID_COUNTER_KEY,
        next > counter(m, tag),
    ensures
        dataset_inv(m.insert(counter_key(tag), be_bytes(next))),
{
    let m1 = m.insert(counter_key(tag), be_bytes(next));
    lemma_be_value_of_bytes(next);
    assert forall|t: u8| counter(m1, t) >= counter(m, t) && counter_ok(m1, t) == (t == tag || counter_ok(m, t)) by {
        if t != tag {
            assert(counter_key(t)[0] != counter_key(tag)[0]);
        }
    }
    lemma_other_key_keeps_interning(m, counter_key(tag), be_bytes(next), ATTRIBUTE_ID_COUNTER_KEY, ATTRIBUTE_NAME_TO_ID_PREFIX, ATTRIBUTE_ID_TO_NAME_PREFIX);
    lemma_other_key_keeps_interning(m, counter_key(tag), be_bytes(next), STRING_LITERAL_ID_COUNTER_KEY, STRING_LITERAL_VALUE_TO_ID_PREFIX, STRING_LITERAL_ID_TO_VALUE_PREFIX);
    assert forall|k: Seq<u8>| #[trigger] m1.contains_key(k) && is_statement_key(k) implies decode_key(k).context <= counter(m1, ENTITY_ID_COUNTER_KEY) by {
        assert(k.len() != counter_key(tag).len());
    }
    assert forall|k: Seq<u8>| is_statement_key(k) implies (#[trigger] m.contains_key(k) == m1.contains_key(k)) by {
        assert(k.len() != counter_key(tag).len());
    }
    lemma_same_index_keeps_seven(m, m1);
}

/// Writing a key whose tag belongs to no interning table keeps that table
/// well formed, as long as its counter does not fall.
proof fn lemma_other_key_keeps_interning(m: Contents, k: Seq<u8>, v: Seq<u8>, ct: u8, nt: u8, it: u8)
    requires
        interning_ok(m, ct, nt, it),
        k.len() > 0,
        k[0] != nt,
        k[0] != it,
        counter(m.insert(k, v), ct) >= counter(m, ct),
    ensures
        interning_ok(m.insert(k, v), ct, nt, it),
{
    let m1 = m.insert(k, v);
    assert forall|b: Seq<u8>| #[trigger] m1.contains_key(tagged(nt, b)) implies {
        &&& m1[tagged(nt, b)].len() == 8
        &&& m1.contains_key(tagged(it, m1[tagged(nt, b)]))
        &&& m1[tagged(it, m1[tagged(nt, b)])] == b
    } by {
        assert(tagged(nt, b)[0] == nt);
        assert(tagged(it, m[tagged(nt, b)])[0] == it);
    }
    assert forall|b: Seq<u8>| #[trigger] m1.contains_key(tagged(it, b)) implies b.len() == 8 && be_value(b) <= counter(m1, ct) by {
        assert(tagged(it, b)[0] == it);
    }
}

/// Adding a new name with the next id keeps its interning table well formed.
proof fn lemma_new_name_keeps_interning(m: Contents, ct: u8, nt: u8, it: u8, b: Seq<u8>, id: u64)
    requires
        is_interning_table(ct, nt, it),
        interning_ok(m, ct, nt, it),
        counter_ok(m, ct),
        !m.contains_key(tagged(nt, b)),
        id == counter(m, ct) + 1,
    ensures
        interning_ok(
            m.insert(counter_key(ct), be_bytes(id)).insert(tagged(nt, b), be_bytes(id)).insert(
                tagged(it, be_bytes(id)),
                b,
            ),
            ct,
            nt,
            it,
        ),
        counter(
            m.insert(counter_key(ct), be_bytes(id)).insert(tagged(nt, b), be_bytes(id)).insert(
                tagged(it, be_bytes(id)),
                b,
            ),
            ct,
        ) == id,
{
    let m1 = m.insert(counter_key(ct), be_bytes(id)).insert(tagged(nt, b), be_bytes(id)).insert(
        tagged(it, be_bytes(id)),
        b,
    );
    lemma_be_value_of_bytes(id);
    assert(counter_key(ct) != tagged(nt, b)) by { assert(counter_key(ct)[0] != tagged(nt, b)[0]); }
    assert(counter_key(ct) != tagged(it, be_bytes(id))) by { assert(counter_key(ct)[0] != tagged(it, be_bytes(id))[0]); }
    assert(counter(m1, ct) == id);
    assert forall|c: Seq<u8>| #[trigger] m1.contains_key(tagged(nt, c)) implies {
        &&& m1[tagged(nt, c)].len() == 8
        &&& m1.contains_key(tagged(it, m1[tagged(nt, c)]))
        &&& m1[tagged(it, m1[tagged(nt, c)])] == c
    } by {
        assert(tagged(nt, c)[0] == nt);
        assert(tagged(it, be_bytes(id))[0] == it);
        assert(counter_key(ct)[0] == ct);
        if c == b {
        } else {
            assert(tagged(nt, c) != tagged(nt, b)) by {
                assert(tagged(nt, c).subrange(1, tagged(nt, c).len() as int) =~= c);
                assert(tagged(nt, b).subrange(1, tagged(nt, b).len() as int) =~= b);
            }
            assert(m.contains_key(tagged(nt, c)));
            let old_id = m[tagged(nt, c)];
            assert(m.contains_key(tagged(it, old_id)));
            assert(be_value(old_id) <= counter(m, ct));
            assert(old_id != be_bytes(id));
            assert(tagged(it, old_id) != tagged(it, be_bytes(id))) by {
                assert(tagged(it, old_id).subrange(1, 9) =~= old_id);
                assert(tagged(it, be_bytes(id)).subrange(1, 9) =~= be_bytes(id));
            }
        }
    }
    assert forall|c: Seq<u8>| #[trigger] m1.contains_key(tagged(it, c)) implies c.len() == 8 && be_value(c) <= counter(m1, ct) by {
        assert(tagged(it, c)[0] == it);
        if c == be_bytes(id) {
        } else {
            assert(tagged(it, c) != tagged(it, be_bytes(id))) by {
                if c.len() == 8 {
                    assert(tagged(it, c).subrange(1, 9) =~= c);
                    assert(tagged(it, be_bytes(id)).subrange(1, 9) =~= be_bytes(id));
                } else {
                    assert(tagged(it, c).len() != tagged(it, be_bytes(id)).len());
                }
            }
            assert(tagged(it, c) != tagged(nt, b)) by { assert(tagged(nt, b)[0] == nt); }
            assert(tagged(it, c) != counter_key(ct)) by { assert(counter_key(ct)[0] == ct); }
            assert(m.contains_key(tagged(it, c)));
        }
    }
}

/// `m1` is `m0` after interning `b` in the table of the given tags, which
/// gave it id `id`: either `b` had that id already and nothing changed, or
/// `b` was new and got the table's next id.
pub open spec fn interned(
    m0: Contents,
    ct: u8,
    nt: u8,
    it: u8,
    b: Seq<u8>,
    id: u64,
    m1: Contents,
) -> bool {
    &&& m1.contains_key(tagged(nt, b))
    &&& m1[tagged(nt, b)] == be_bytes(id)
    &&& m0.contains_key(tagged(nt, b)) ==> m1 == m0
    &&& !m0.contains_key(tagged(nt, b)) ==> {
        &&& counter_ok(m0, ct)
        &&& id == counter(m0, ct) + 1
        &&& m1 == m0.insert(counter_key(ct), be_bytes(id)).insert(tagged(nt, b), be_bytes(id)).insert(
            tagged(it, be_bytes(id)),
            b,
        )
    }
}

/// Interning a new name keeps the dataset invariant.
proof fn lemma_intern_keeps_inv(m: Contents, ct: u8, nt: u8, it: u8, b: Seq<u8>, id: u64)
    requires
        dataset_inv(m),
        is_interning_table(ct, nt, it),
        !m.contains_key(tagged(nt, b)),
        id == counter(m, ct) + 1,
    ensures
        dataset_inv(
            m.insert(counter_key(ct), be_bytes(id)).insert(tagged(nt, b), be_bytes(id)).insert(
                tagged(it, be_bytes(id)),
                b,
            ),
        ),
{
    let ck = counter_key(ct);
    let nk = tagged(nt, b);
    let ik = tagged(it, be_bytes(id));
    let m1 = m.insert(ck, be_bytes(id));
    let m2 = m1.insert(nk, be_bytes(id));
    let m3 = m2.insert(ik, b);
    assert(ck[0] == ct && nk[0] == nt && ik[0] == it);
    lemma_be_value_of_bytes(id);
    lemma_new_name_keeps_interning(m, ct, nt, it, b, id);
    assert forall|t: u8| t != ct && t <= STRING_LITERAL_ID_COUNTER_KEY implies counter(m3, t) == counter(m, t) && counter_ok(m3, t) == counter_ok(m, t) by {
        assert(counter_key(t)[0] == t);
        assert(counter_key(t) != nk && counter_key(t) != ik && counter_key(t) != ck);
    }
    assert(counter_ok(m3, ct)) by {
        assert(ck != nk && ck != ik);
    }
    if ct == ATTRIBUTE_ID_COUNTER_KEY {
        lemma_other_key_keeps_interning(m, ck, be_bytes(id), STRING_LITERAL_ID_COUNTER_KEY, STRING_LITERAL_VALUE_TO_ID_PREFIX, STRING_LITERAL_ID_TO_VALUE_PREFIX);
        lemma_other_key_keeps_interning(m1, nk, be_bytes(id), STRING_LITERAL_ID_COUNTER_KEY, STRING_LITERAL_VALUE_TO_ID_PREFIX, STRING_LITERAL_ID_TO_VALUE_PREFIX);
        lemma_other_key_keeps_interning(m2, ik, b, STRING_LITERAL_ID_COUNTER_KEY, STRING_LITERAL_VALUE_TO_ID_PREFIX, STRING_LITERAL_ID_TO_VALUE_PREFIX);
    } else {
        lemma_other_key_keeps_interning(m, ck, be_bytes(id), ATTRIBUTE_ID_COUNTER_KEY, ATTRIBUTE_NAME_TO_ID_PREFIX, ATTRIBUTE_ID_TO_NAME_PREFIX);
        lemma_other_key_keeps_interning(m1, nk, be_bytes(id), ATTRIBUTE_ID_COUNTER_KEY, ATTRIBUTE_NAME_TO_ID_PREFIX, ATTRIBUTE_ID_TO_NAME_PREFIX);
        lemma_other_key_keeps_interning(m2, ik, b, ATTRIBUTE_ID_COUNTER_KEY, ATTRIBUTE_NAME_TO_ID_PREFIX, ATTRIBUTE_ID_TO_NAME_PREFIX);
    }
    assert forall|k: Seq<u8>| #[trigger] m3.contains_key(k) && is_statement_key(k) implies decode_key(k).context <= counter(m3, ENTITY_ID_COUNTER_KEY) by {
        assert(k != ck && k != nk && k != ik) by {
            assert(k.len() != ck.len());
        }
    }
    assert forall|k: Seq<u8>| is_statement_key(k) implies (#[trigger] m.contains_key(k) == m3.contains_key(k)) by {
        assert(k != ck && k != nk && k != ik) by {
            assert(k.len() != ck.len());
        }
    }
    lemma_same_index_keeps_seven(m, m3);
}

/// An index key of a statement is a statement key, with the statement's context.
proof fn lemma_key_of(k: Seq<u8>, ids: IdSet)
    requires
        is_key_of(k, ids),
        well_formed_ids(ids),
    ensures
        is_statement_key(k),
        decode_key(k).context == ids.context,
        decode_key(k) == ids,
{
    let tag = choose|tag: u8| is_permutation_tag(tag) && k == #[trigger] permutation_key(tag, ids);
    lemma_decode_permutation_key(tag, ids);
}

/// Adding the keys of a statement whose context the entity counter has
/// passed keeps the dataset invariant, and changes no other entry.
proof fn lemma_with_statement_keeps_inv(m: Contents, ids: IdSet)
    requires
        dataset_inv(m),
        well_formed_ids(ids),
        ids.context <= counter(m, ENTITY_ID_COUNTER_KEY),
    ensures
        dataset_inv(with_statement(m, ids)),
        forall|k: Seq<u8>| !is_statement_key(k) ==> (#[trigger] with_statement(m, ids).contains_key(k)
            == m.contains_key(k) && (m.contains_key(k) ==> with_statement(m, ids)[k] == m[k])),
{
    let m1 = with_statement(m, ids);
    assert forall|k: Seq<u8>| !is_statement_key(k) implies (#[trigger] m1.contains_key(k)
        == m.contains_key(k) && (m.contains_key(k) ==> m1[k] == m[k])) by {
        if is_key_of(k, ids) {
            lemma_key_of(k, ids);
        }
    }
    assert forall|t: u8| counter(m1, t) == counter(m, t) && counter_ok(m1, t) == counter_ok(m, t) by {
        assert(!is_statement_key(counter_key(t)));
    }
    assert forall|k: Seq<u8>| #[trigger] m1.contains_key(k) && is_statement_key(k) implies decode_key(k).context <= counter(m1, ENTITY_ID_COUNTER_KEY) by {
        if is_key_of(k, ids) {
            lemma_key_of(k, ids);
        }
    }
    reveal(seven_keys);
    assert forall|k: Seq<u8>| #[trigger] m1.contains_key(k) && is_statement_key(k) implies holds_statement(m1, decode_key(k)) by {
        if is_key_of(k, ids) {
            lemma_key_of(k, ids);
            assert forall|tag: u8| is_permutation_tag(tag) implies #[trigger] m1.contains_key(permutation_key(tag, ids)) by {
                assert(is_key_of(permutation_key(tag, ids), ids));
            }
        } else {
            assert(m.contains_key(k));
            let ik = decode_key(k);
            assert(holds_statement(m, ik));
            assert forall|tag: u8| is_permutation_tag(tag) implies #[trigger] m1.contains_key(permutation_key(tag, ik)) by {
                assert(m.contains_key(permutation_key(tag, ik)));
            }
        }
    }
    assert forall|nt: u8, b: Seq<u8>| !is_permutation_tag(nt) implies !is_statement_key(#[trigger] tagged(nt, b)) by {
        assert(tagged(nt, b)[0] == nt);
    }
    assert(interning_ok(m1, ATTRIBUTE_ID_COUNTER_KEY, ATTRIBUTE_NAME_TO_ID_PREFIX, ATTRIBUTE_ID_TO_NAME_PREFIX)) by {
        assert(!is_permutation_tag(ATTRIBUTE_NAME_TO_ID_PREFIX) && !is_permutation_tag(ATTRIBUTE_ID_TO_NAME_PREFIX));
    }
    assert(interning_ok(m1, STRING_LITERAL_ID_COUNTER_KEY, STRING_LITERAL_VALUE_TO_ID_PREFIX, STRING_LITERAL_ID_TO_VALUE_PREFIX)) by {
        assert(!is_permutation_tag(STRING_LITERAL_VALUE_TO_ID_PREFIX) && !is_permutation_tag(STRING_LITERAL_ID_TO_VALUE_PREFIX));
    }
}

/// `m1` is `m0` after `add_statement` stored statement `s` under context `c`:
/// its entities were valid, the context is the entity counter's next value,
/// its names are interned, and the index gained exactly its seven keys.
pub open spec fn statement_added(m0: Contents, s: StatementView, c: u64, m1: Contents) -> bool {
    &&& entities_valid(m0, s)
    &&& counter_ok(m0, ENTITY_ID_COUNTER_KEY)
    &&& c == counter(m0, ENTITY_ID_COUNTER_KEY) + 1
    &&& counter(m1, ENTITY_ID_COUNTER_KEY) == c
    &&& is_interned(m1, s)
    &&& holds_statement(m1, resolved_ids(m1, s, c))
    &&& forall|k: Seq<u8>|
        is_statement_key(k) ==> (#[trigger] m1.contains_key(k) == (m0.contains_key(k) || is_key_of(
            k,
            resolved_ids(m1, s, c),
        )))
}

/// What interning leaves in place: the entity counter, the statement index,
/// and every entry outside the table's three keys.
proof fn lemma_intern_frame(m0: Contents, ct: u8, nt: u8, it: u8, b: Seq<u8>, id: u64, m1: Contents)
    requires
        is_interning_table(ct, nt, it),
        interned(m0, ct, nt, it, b, id, m1),
    ensures
        counter(m1, ENTITY_ID_COUNTER_KEY) == counter(m0, ENTITY_ID_COUNTER_KEY),
        counter_ok(m1, ENTITY_ID_COUNTER_KEY) == counter_ok(m0, ENTITY_ID_COUNTER_KEY),
        same_index(m0, m1),
        forall|k: Seq<u8>| k.len() > 0 && k[0] != ct && k[0] != nt && k[0] != it ==> (#[trigger] m1.contains_key(k)
            == m0.contains_key(k) && (m0.contains_key(k) ==> m1[k] == m0[k])),
        forall|k: Seq<u8>|
            (m0.contains_key(tagged(nt, b)) || (k != counter_key(ct) && k != tagged(nt, b) && k
                != tagged(it, be_bytes(id)))) ==> (#[trigger] m1.contains_key(k) == m0.contains_key(k)
                && (m0.contains_key(k) ==> m1[k] == m0[k])),
{
    if !m0.contains_key(tagged(nt, b)) {
        let ck = counter_key(ct);
        let nk = tagged(nt, b);
        let ik = tagged(it, be_bytes(id));
        assert(ck[0] == ct && nk[0] == nt && ik[0] == it);
        assert(counter_key(ENTITY_ID_COUNTER_KEY)[0] == ENTITY_ID_COUNTER_KEY);
        assert forall|k: Seq<u8>| is_statement_key(k) implies (#[trigger] m0.contains_key(k) == m1.contains_key(k)) by {
            assert(k != ck && k != nk && k != ik);
        }
    }
}

/// What adding a statement's keys leaves in place: every entry that is not a statement key.
proof fn lemma_with_statement_frame(m: Contents, ids: IdSet)
    requires
        well_formed_ids(ids),
    ensures
        forall|k: Seq<u8>| !is_statement_key(k) ==> (#[trigger] with_statement(m, ids).contains_key(k)
            == m.contains_key(k) && (m.contains_key(k) ==> with_statement(m, ids)[k] == m[k])),
        forall|k: Seq<u8>| is_statement_key(k) ==> (#[trigger] with_statement(m, ids).contains_key(k)
            == (m.contains_key(k) || is_key_of(k, ids))),
{
    assert forall|k: Seq<u8>| !is_statement_key(k) implies (#[trigger] with_statement(m, ids).contains_key(k)
        == m.contains_key(k) && (m.contains_key(k) ==> with_statement(m, ids)[k] == m[k])) by {
        if is_key_of(k, ids) {
            lemma_key_of(k, ids);
        }
    }
}

/// More than one key of `m` begins with the context prefix of `c`.
pub open spec fn context_is_shared(m: Contents, c: u64) -> bool {
    exists|k1: Seq<u8>, k2: Seq<u8>|
        k1 != k2 && #[trigger] m.contains_key(k1) && #[trigger] m.contains_key(k2) && has_prefix(k1, context_prefix(c))
            && has_prefix(k2, context_prefix(c))
}

/// `m1` is `m0` after `remove_statement` removed statement `s` with context
/// `c`: the statement was stored, its seven index keys are gone and no other
/// index key is, and its attribute (and string literal) stay interned
/// exactly when some remaining statement still uses them.
pub open spec fn statement_removed(m0: Contents, s: StatementView, c: u64, m1: Contents) -> bool {
    let ids = resolved_ids(m0, s, c);
    &&& is_interned(m0, s)
    &&& m0.contains_key(permutation_key(CEAV_PREFIX, ids))
    &&& forall|k: Seq<u8>|
        is_statement_key(k) ==> (#[trigger] m1.contains_key(k) == (m0.contains_key(k) && !is_key_of(
            k,
            ids,
        )))
    &&& m1.contains_key(attribute_name_key(s.attribute)) == has_key_with_prefix(
        m1,
        attribute_prefix(ids.attribute),
    )
    &&& s.value matches ValueView::StringLiteral(t) ==> m1.contains_key(string_text_key(t))
        == has_key_with_prefix(m1, string_value_prefix(ids.value_body))
}

/// Compares two byte vectors.
fn bytes_equal(a: &Vec<u8>, b: &Vec<u8>) -> (res: bool)
    ensures
        res == (a@ == b@),
{
    if a.len() != b.len() {
        return false;
    }
    let mut i: usize = 0;
    while i < a.len()
        invariant
            a@.len() == b@.len(),
            0 <= i <= a@.len(),
            a@.subrange(0, i as int) == b@.subrange(0, i as int),
        decreases a@.len() - i,
    {
        if a[i] != b[i] {
            return false;
        }
        assert(a@.subrange(0, i + 1) =~= a@.subrange(0, i as int).push(a@[i as int]));
        assert(b@.subrange(0, i + 1) =~= b@.subrange(0, i as int).push(b@[i as int]));
        i += 1;
    }
    assert(a@ =~= a@.subrange(0, i as int));
    assert(b@ =~= b@.subrange(0, i as int));
    true
}

/// Every key that `keys` lists is `key`.
fn only_key(keys: &Vec<Vec<u8>>, key: &Vec<u8>) -> (res: bool)
    ensures
        res == forall|i: int| 0 <= i < keys@.len() ==> #[trigger] keys@[i]@ == key@,
{
    let mut i: usize = 0;
    while i < keys.len()
        invariant
            0 <= i <= keys@.len(),
            forall|j: int| 0 <= j < i ==> #[trigger] keys@[j]@ == key@,
        decreases keys@.len() - i,
    {
        if !bytes_equal(&keys[i], key) {
            return false;
        }
        i += 1;
    }
    true
}

/// A key that `remove_statement` deletes: an index key of the statement,
/// or an interning entry that it releases.
pub open spec fn removal_key(
    k: Seq<u8>,
    ids: IdSet,
    release_attribute: bool,
    nk: Seq<u8>,
    ik: Seq<u8>,
    release_string: bool,
    tk: Seq<u8>,
    sk: Seq<u8>,
) -> bool {
    ||| is_key_of(k, ids)
    ||| (release_attribute && (k == nk || k == ik))
    ||| (release_string && (k == tk || k == sk))
}

/// Which keys a removal deletes among the statement keys.
proof fn lemma_removal_facts(
    m0: Contents,
    m1: Contents,
    ids: IdSet,
    removed: spec_fn(Seq<u8>) -> bool,
    ra: bool,
    nk: Seq<u8>,
    ik: Seq<u8>,
    rs: bool,
    tk: Seq<u8>,
    sk: Seq<u8>,
)
    requires
        well_formed_ids(ids),
        forall|k: Seq<u8>| #[trigger] removed(k) == removal_key(k, ids, ra, nk, ik, rs, tk, sk),
        nk.len() > 0 && !is_permutation_tag(nk[0]),
        ik.len() > 0 && !is_permutation_tag(ik[0]),
        rs ==> tk.len() > 0 && !is_permutation_tag(tk[0]),
        sk.len() > 0 && !is_permutation_tag(sk[0]),
        forall|k: Seq<u8>| #[trigger] m1.contains_key(k) == (m0.contains_key(k) && !removed(k))
            && (m1.contains_key(k) ==> m1[k] == m0[k]),
    ensures
        forall|k: Seq<u8>| is_statement_key(k) ==> (#[trigger] m1.contains_key(k) == (m0.contains_key(k) && !is_key_of(k, ids))),
{
}

/// An interning entry is released exactly when the scan of its users found
/// no key but the removed statement's own.
proof fn lemma_release(
    m0: Contents,
    m1: Contents,
    users: Seq<Vec<u8>>,
    p: Seq<u8>,
    own: Seq<u8>,
    entry: Seq<u8>,
    removed: spec_fn(Seq<u8>) -> bool,
    release: bool,
)
    requires
        lists_keys_with_prefix(users, m0, p),
        release == forall|i: int| 0 <= i < users.len() ==> #[trigger] users[i]@ == own,
        removed(own),
        m0.contains_key(entry),
        release ==> removed(entry),
        !release ==> !removed(entry),
        p.len() > 0,
        forall|k: Seq<u8>| has_prefix(k, p) && k != own ==> !#[trigger] removed(k),
        forall|k: Seq<u8>| #[trigger] m1.contains_key(k) == (m0.contains_key(k) && !removed(k)),
    ensures
        m1.contains_key(entry) == has_key_with_prefix(m1, p),
{
    if release {
        if has_key_with_prefix(m1, p) {
            let k = choose|k: Seq<u8>| #[trigger] m1.contains_key(k) && has_prefix(k, p);
            assert(m0.contains_key(k));
            let i = choose|i: int| 0 <= i < users.len() && #[trigger] users[i]@ == k;
            assert(users[i]@ == own);
        }
    } else {
        let i = choose|i: int| 0 <= i < users.len() && !(#[trigger] users[i]@ == own);
        let k = users[i]@;
        assert(m0.contains_key(k) && has_prefix(k, p));
        assert(m1.contains_key(k));
    }
}

/// Among the keys under an index prefix, a removal deletes only the
/// statement's own key of that index.
proof fn lemma_only_own_key_removed(
    p: Seq<u8>,
    own: Seq<u8>,
    ids: IdSet,
    removed: spec_fn(Seq<u8>) -> bool,
    ra: bool,
    nk: Seq<u8>,
    ik: Seq<u8>,
    rs: bool,
    tk: Seq<u8>,
    sk: Seq<u8>,
)
    requires
        p.len() > 0,
        is_permutation_tag(p[0]),
        own == permutation_key(p[0], ids),
        forall|k: Seq<u8>| #[trigger] removed(k) == removal_key(k, ids, ra, nk, ik, rs, tk, sk),
        nk.len() > 0 && !is_permutation_tag(nk[0]),
        ik.len() > 0 && !is_permutation_tag(ik[0]),
        rs ==> tk.len() > 0 && !is_permutation_tag(tk[0]),
        sk.len() > 0 && !is_permutation_tag(sk[0]),
    ensures
        forall|k: Seq<u8>| has_prefix(k, p) && k != own ==> !#[trigger] removed(k),
{
    assert forall|k: Seq<u8>| has_prefix(k, p) && k != own implies !#[trigger] removed(k) by {
        assert(k[0] == k.subrange(0, p.len() as int)[0]);
        if is_key_of(k, ids) {
            let tag = choose|tag: u8| is_permutation_tag(tag) && k == #[trigger] permutation_key(tag, ids);
            assert(k[0] == tag);
        }
    }
}

/// Deleting one name of an interning table together with its id entry, and
/// no other entry of the table, keeps the table well formed.
proof fn lemma_release_keeps_interning(
    m0: Contents,
    m1: Contents,
    ct: u8,
    nt: u8,
    it: u8,
    release: bool,
    b: Seq<u8>,
)
    requires
        nt != it,
        interning_ok(m0, ct, nt, it),
        release ==> m0.contains_key(tagged(nt, b)),
        forall|k: Seq<u8>| k.len() > 0 && (k[0] == nt || k[0] == it) ==> (#[trigger] m1.contains_key(k) == (m0.contains_key(k)
            && !(release && (k == tagged(nt, b) || k == tagged(it, m0[tagged(nt, b)])))) && (m1.contains_key(k) ==> m1[k] == m0[k])),
        counter(m1, ct) == counter(m0, ct),
    ensures
        interning_ok(m1, ct, nt, it),
{
    assert forall|c: Seq<u8>| #[trigger] m1.contains_key(tagged(nt, c)) implies {
        &&& m1[tagged(nt, c)].len() == 8
        &&& m1.contains_key(tagged(it, m1[tagged(nt, c)]))
        &&& m1[tagged(it, m1[tagged(nt, c)])] == c
    } by {
        assert(tagged(nt, c)[0] == nt);
        let id = m0[tagged(nt, c)];
        assert(tagged(it, id)[0] == it);
        if release && tagged(it, id) == tagged(it, m0[tagged(nt, b)]) {
            assert(tagged(it, id).subrange(1, 9) =~= id);
            assert(tagged(it, m0[tagged(nt, b)]).subrange(1, 9) =~= m0[tagged(nt, b)]);
            assert(c == b);
        }
    }
    assert forall|c: Seq<u8>| #[trigger] m1.contains_key(tagged(it, c)) implies c.len() == 8 && be_value(c) <= counter(m1, ct) by {
        assert(tagged(it, c)[0] == it);
    }
}

/// A removal that deletes statement keys and released interning entries
/// keeps the dataset invariant.
proof fn lemma_removal_keeps_inv(
    m0: Contents,
    m1: Contents,
    removed: spec_fn(Seq<u8>) -> bool,
    ids: IdSet,
    ra: bool,
    bn: Seq<u8>,
    rs: bool,
    bt: Seq<u8>,
)
    requires
        dataset_inv(m0),
        well_formed_ids(ids),
        forall|k: Seq<u8>| #[trigger] removed(k) && is_statement_key(k) ==> is_key_of(k, ids),
        forall|k: Seq<u8>| is_key_of(k, ids) ==> #[trigger] removed(k),
        ra ==> m0.contains_key(tagged(ATTRIBUTE_NAME_TO_ID_PREFIX, bn)),
        rs ==> m0.contains_key(tagged(STRING_LITERAL_VALUE_TO_ID_PREFIX, bt)),
        forall|k: Seq<u8>| #[trigger] removed(k) ==> is_statement_key(k)
            || (ra && (k == tagged(ATTRIBUTE_NAME_TO_ID_PREFIX, bn) || k == tagged(ATTRIBUTE_ID_TO_NAME_PREFIX, m0[tagged(ATTRIBUTE_NAME_TO_ID_PREFIX, bn)])))
            || (rs && (k == tagged(STRING_LITERAL_VALUE_TO_ID_PREFIX, bt) || k == tagged(STRING_LITERAL_ID_TO_VALUE_PREFIX, m0[tagged(STRING_LITERAL_VALUE_TO_ID_PREFIX, bt)]))),
        ra ==> removed(tagged(ATTRIBUTE_NAME_TO_ID_PREFIX, bn)) && removed(tagged(ATTRIBUTE_ID_TO_NAME_PREFIX, m0[tagged(ATTRIBUTE_NAME_TO_ID_PREFIX, bn)])),
        rs ==> removed(tagged(STRING_LITERAL_VALUE_TO_ID_PREFIX, bt)) && removed(tagged(STRING_LITERAL_ID_TO_VALUE_PREFIX, m0[tagged(STRING_LITERAL_VALUE_TO_ID_PREFIX, bt)])),
        forall|k: Seq<u8>| #[trigger] m1.contains_key(k) == (m0.contains_key(k) && !removed(k))
            && (m1.contains_key(k) ==> m1[k] == m0[k]),
    ensures
        dataset_inv(m1),
{
    assert forall|t: u8| t <= STRING_LITERAL_ID_COUNTER_KEY implies counter(m1, t) == counter(m0, t) && counter_ok(m1, t) == counter_ok(m0, t) by {
        let k = counter_key(t);
        assert(k.len() == 1 && k[0] == t);
        assert(!removed(k)) by {
            assert(!is_statement_key(k));
            assert(tagged(ATTRIBUTE_NAME_TO_ID_PREFIX, bn)[0] != t);
            assert(tagged(ATTRIBUTE_ID_TO_NAME_PREFIX, m0[tagged(ATTRIBUTE_NAME_TO_ID_PREFIX, bn)])[0] != t);
            assert(tagged(STRING_LITERAL_VALUE_TO_ID_PREFIX, bt)[0] != t);
            assert(tagged(STRING_LITERAL_ID_TO_VALUE_PREFIX, m0[tagged(STRING_LITERAL_VALUE_TO_ID_PREFIX, bt)])[0] != t);
        }
    }
    assert forall|k: Seq<u8>| k.len() > 0 && (k[0] == ATTRIBUTE_NAME_TO_ID_PREFIX || k[0] == ATTRIBUTE_ID_TO_NAME_PREFIX) implies (#[trigger] m1.contains_key(k) == (m0.contains_key(k)
        && !(ra && (k == tagged(ATTRIBUTE_NAME_TO_ID_PREFIX, bn) || k == tagged(ATTRIBUTE_ID_TO_NAME_PREFIX, m0[tagged(ATTRIBUTE_NAME_TO_ID_PREFIX, bn)]))))) by {
        assert(!is_statement_key(k));
        assert(tagged(STRING_LITERAL_VALUE_TO_ID_PREFIX, bt)[0] != k[0]);
        assert(tagged(STRING_LITERAL_ID_TO_VALUE_PREFIX, m0[tagged(STRING_LITERAL_VALUE_TO_ID_PREFIX, bt)])[0] != k[0]);
    }
    lemma_release_keeps_interning(m0, m1, ATTRIBUTE_ID_COUNTER_KEY, ATTRIBUTE_NAME_TO_ID_PREFIX, ATTRIBUTE_ID_TO_NAME_PREFIX, ra, bn);
    assert forall|k: Seq<u8>| k.len() > 0 && (k[0] == STRING_LITERAL_VALUE_TO_ID_PREFIX || k[0] == STRING_LITERAL_ID_TO_VALUE_PREFIX) implies (#[trigger] m1.contains_key(k) == (m0.contains_key(k)
        && !(rs && (k == tagged(STRING_LITERAL_VALUE_TO_ID_PREFIX, bt) || k == tagged(STRING_LITERAL_ID_TO_VALUE_PREFIX, m0[tagged(STRING_LITERAL_VALUE_TO_ID_PREFIX, bt)]))))) by {
        assert(!is_statement_key(k));
        assert(tagged(ATTRIBUTE_NAME_TO_ID_PREFIX, bn)[0] != k[0]);
        assert(tagged(ATTRIBUTE_ID_TO_NAME_PREFIX, m0[tagged(ATTRIBUTE_NAME_TO_ID_PREFIX, bn)])[0] != k[0]);
    }
    lemma_release_keeps_interning(m0, m1, STRING_LITERAL_ID_COUNTER_KEY, STRING_LITERAL_VALUE_TO_ID_PREFIX, STRING_LITERAL_ID_TO_VALUE_PREFIX, rs, bt);
    reveal(seven_keys);
    assert forall|k: Seq<u8>| #[trigger] m1.contains_key(k) && is_statement_key(k) implies holds_statement(m1, decode_key(k)) by {
        let ik = decode_key(k);
        lemma_statement_key_canonical(k);
        assert forall|tag: u8| is_permutation_tag(tag) implies #[trigger] m1.contains_key(permutation_key(tag, ik)) by {
            let pk = permutation_key(tag, ik);
            lemma_decode_permutation_key(tag, ik);
            assert(m0.contains_key(pk));
            if removed(pk) {
                assert(is_key_of(pk, ids));
                lemma_key_of(pk, ids);
                assert(ik == ids);
                assert(is_key_of(k, ids)) by {
                    assert(k == permutation_key(k[0], ids));
                }
                assert(removed(k));
            }
        }
    }
}

/// Entities that `new_entity` allocates are never the same: of two
/// allocations, the second made from a state whose entity counter is no
/// lower than after the first, the two ids differ, and neither exceeds the
/// entity counter after the second.
pub proof fn lemma_allocated_entities_distinct(
    m0: Contents,
    e1: u64,
    m1: Contents,
    m2: Contents,
    e2: u64,
    m3: Contents,
)
    requires
        entity_allocated(m0, e1, m1),
        counter(m2, ENTITY_ID_COUNTER_KEY) >= counter(m1, ENTITY_ID_COUNTER_KEY),
        entity_allocated(m2, e2, m3),
    ensures
        e1 != e2,
        e1 <= counter(m1, ENTITY_ID_COUNTER_KEY),
        e1 < counter(m3, ENTITY_ID_COUNTER_KEY),
        e2 <= counter(m3, ENTITY_ID_COUNTER_KEY),
{
}

/// After a removal, the id entry of the statement's attribute (and of its
/// string literal) is present exactly when its name entry is: the two
/// directions of an interning table are released together.
pub open spec fn released_together(m0: Contents, s: StatementView, m1: Contents) -> bool {
    &&& m1.contains_key(attribute_id_key(crate::layout::attribute_id(m0, s.attribute)))
        == m1.contains_key(attribute_name_key(s.attribute))
    &&& s.value matches ValueView::StringLiteral(t) ==> m1.contains_key(
        string_id_key(crate::layout::string_id(m0, t)),
    ) == m1.contains_key(string_text_key(t))
}

/// None of the counters has reached its largest value.
pub open spec fn counters_below_max(m: Contents) -> bool {
    &&& counter(m, ENTITY_ID_COUNTER_KEY) < u64::MAX
    &&& counter(m, ATTRIBUTE_ID_COUNTER_KEY) < u64::MAX
    &&& counter(m, STRING_LITERAL_ID_COUNTER_KEY) < u64::MAX
}

/// Statement `s` is stored under context `c`, and nothing else is.
pub open spec fn statement_present(m: Contents, s: StatementView, c: u64) -> bool {
    &&& counter_ok(m, ENTITY_ID_COUNTER_KEY)
    &&& entities_valid(m, s)
    &&& is_interned(m, s)
    &&& m.contains_key(permutation_key(CEAV_PREFIX, resolved_ids(m, s, c)))
    &&& !context_is_shared(m, c)
}

/// `add_statement` may write key `k`: the entity counter, an index key of
/// the new statement, or, for a name or text that had no id yet, its
/// counter and its two table entries.
pub open spec fn add_may_write(m0: Contents, s: StatementView, ids: IdSet, m1: Contents, k: Seq<u8>) -> bool {
    ||| k == counter_key(ENTITY_ID_COUNTER_KEY)
    ||| is_key_of(k, ids)
    ||| (!m0.contains_key(attribute_name_key(s.attribute)) && (k == counter_key(ATTRIBUTE_ID_COUNTER_KEY)
        || k == attribute_name_key(s.attribute) || k == attribute_id_key(ids.attribute)))
    ||| (s.value matches ValueView::StringLiteral(t) && !m0.contains_key(string_text_key(t)) && (k
        == counter_key(STRING_LITERAL_ID_COUNTER_KEY) || k == string_text_key(t) || k
        == string_id_key(crate::layout::string_id(m1, t))))
}

/// Every key that `add_statement` may not write keeps its presence and its
/// value, and the new index keys hold empty values.
pub open spec fn added_frame(m0: Contents, s: StatementView, ids: IdSet, m1: Contents) -> bool {
    &&& forall|k: Seq<u8>|
        !add_may_write(m0, s, ids, m1, k) ==> (#[trigger] m1.contains_key(k) == m0.contains_key(k) && (
        m0.contains_key(k) ==> m1[k] == m0[k]))
    &&& forall|k: Seq<u8>| is_key_of(k, ids) ==> #[trigger] m1[k] == Seq::<u8>::empty()
}

/// `remove_statement` may delete key `k`: an index key of the statement, or
/// an interning entry of its attribute or of its string literal.
pub open spec fn removed_may_delete(m0: Contents, s: StatementView, c: u64, k: Seq<u8>) -> bool {
    let ids = resolved_ids(m0, s, c);
    ||| is_key_of(k, ids)
    ||| k == attribute_name_key(s.attribute)
    ||| k == attribute_id_key(ids.attribute)
    ||| (s.value matches ValueView::StringLiteral(t) && (k == string_text_key(t) || k == string_id_key(
        crate::layout::string_id(m0, t),
    )))
}

/// A removal only deletes keys: every key left keeps its value, and every
/// key that the removal may not delete is left.
pub open spec fn removed_frame(m0: Contents, s: StatementView, c: u64, m1: Contents) -> bool {
    &&& forall|k: Seq<u8>| #[trigger] m1.contains_key(k) ==> m0.contains_key(k) && m1[k] == m0[k]
    &&& forall|k: Seq<u8>| m0.contains_key(k) && !removed_may_delete(m0, s, c, k) ==> #[trigger] m1.contains_key(k)
}

/// A change that keeps the same statement keys keeps each statement's seven keys.
proof fn lemma_same_index_keeps_seven(m0: Contents, m1: Contents)
    requires
        seven_keys(m0),
        same_index(m0, m1),
    ensures
        seven_keys(m1),
{
    reveal(seven_keys);
    assert forall|k: Seq<u8>| #[trigger] m1.contains_key(k) && is_statement_key(k) implies holds_statement(m1, decode_key(k)) by {
        let ids = decode_key(k);
        assert(m0.contains_key(k));
        assert(holds_statement(m0, ids));
        lemma_statement_key_canonical(k);
        assert forall|tag: u8| is_permutation_tag(tag) implies #[trigger] m1.contains_key(permutation_key(tag, ids)) by {
            let pk = permutation_key(tag, ids);
            assert(m0.contains_key(pk));
            lemma_decode_permutation_key(tag, ids);
            assert(is_statement_key(pk));
        }
    }
}

} // verus!
