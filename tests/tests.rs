use ligature_sled::model::{Attribute, Entity, PersistedStatement, Range, Statement, Value};
use ligature_sled::query_tx::LigatureSledQueryTx;
use ligature_sled::write_tx::LigatureSledWriteTx;
use ligature_sled::LigatureSledError;

fn dataset() -> (sled::Db, sled::Tree) {
    let db = sled::Config::new().temporary(true).open().unwrap();
    let tree = db.open_tree("test/test").unwrap();
    (db, tree)
}

fn statement(entity: &Entity, attribute: &str, value: Value) -> Statement {
    Statement {
        entity: *entity,
        attribute: Attribute::new(attribute).unwrap(),
        value,
    }
}

fn snapshot(tree: &sled::Tree) -> Vec<(Vec<u8>, Vec<u8>)> {
    tree.iter()
        .map(|entry| {
            let (k, v) = entry.unwrap();
            (k.to_vec(), v.to_vec())
        })
        .collect()
}

#[test]
fn new_datasets_should_be_empty() {
    let (_db, tree) = dataset();
    let tx = LigatureSledQueryTx::new(tree);
    let res: Vec<PersistedStatement> = tx.all_statements().unwrap();
    assert!(res.is_empty());
}

#[test]
fn create_new_entity() {
    let (_db, tree) = dataset();
    let mut tx = LigatureSledWriteTx::new(tree);
    let entity1 = tx.new_entity().unwrap();
    let entity2 = tx.new_entity().unwrap();
    assert_eq!(entity1.0, 1);
    assert_eq!(entity2.0, 2);
    assert!(entity1 != entity2);
}

#[test]
fn add_a_basic_statement() {
    let (_db, tree) = dataset();
    let mut tx = LigatureSledWriteTx::new(tree.clone());
    let entity = tx.new_entity().unwrap();
    let string_statement = statement(&entity, "name", Value::StringLiteral("Juniper".to_string()));
    let entity2 = tx.new_entity().unwrap();
    let entity3 = tx.new_entity().unwrap();
    let entity_statement = statement(&entity2, "connection", Value::Entity(entity3));
    let integer_statement = statement(&entity2, "connection", Value::IntegerLiteral(4200));
    let float_statement = statement(&entity3, "connection", Value::FloatLiteral(42.2f64.to_bits()));
    tx.add_statement(&string_statement).unwrap();
    tx.add_statement(&entity_statement).unwrap();
    tx.add_statement(&integer_statement).unwrap();
    tx.add_statement(&float_statement).unwrap();
    let query = LigatureSledQueryTx::new(tree);
    let res: Vec<PersistedStatement> = query.all_statements().unwrap();
    assert_eq!(res.len(), 4);
}

#[test]
fn entities_are_distinct_and_within_counter() {
    let (_db, tree) = dataset();
    let mut tx = LigatureSledWriteTx::new(tree.clone());
    let e1 = tx.new_entity().unwrap();
    let e2 = tx.new_entity().unwrap();
    assert_ne!(e1.0, e2.0);
    let counter = tree.get([0u8]).unwrap().unwrap().to_vec();
    assert_eq!(counter, 2u64.to_be_bytes().to_vec());
    assert!(e1.0 <= 2 && e2.0 <= 2);
}

#[test]
fn four_statements_have_distinct_contexts() {
    let (_db, tree) = dataset();
    let mut tx = LigatureSledWriteTx::new(tree.clone());
    let e1 = tx.new_entity().unwrap();
    let e2 = tx.new_entity().unwrap();
    let e3 = tx.new_entity().unwrap();
    let added = vec![
        tx.add_statement(&statement(&e1, "name", Value::StringLiteral("Juniper".to_string()))).unwrap(),
        tx.add_statement(&statement(&e2, "connection", Value::Entity(e3))).unwrap(),
        tx.add_statement(&statement(&e2, "connection", Value::IntegerLiteral(4200))).unwrap(),
        tx.add_statement(&statement(&e3, "connection", Value::FloatLiteral(42.2f64.to_bits()))).unwrap(),
    ];
    let query = LigatureSledQueryTx::new(tree);
    let all = query.all_statements().unwrap();
    assert_eq!(all.len(), 4);
    for i in 0..all.len() {
        for j in 0..all.len() {
            if i != j {
                assert_ne!(all[i].context, all[j].context);
            }
        }
        assert!(added.contains(&all[i]));
    }
}

#[test]
fn add_then_lookup_by_context_gives_the_statement() {
    let (_db, tree) = dataset();
    let mut tx = LigatureSledWriteTx::new(tree.clone());
    let e1 = tx.new_entity().unwrap();
    let values = vec![
        Value::StringLiteral("Juniper".to_string()),
        Value::Entity(e1),
        Value::IntegerLiteral(-7),
        Value::FloatLiteral((-0.5f64).to_bits()),
    ];
    let query = LigatureSledQueryTx::new(tree);
    for value in values {
        let added = tx.add_statement(&statement(&e1, "name", value)).unwrap();
        let found = query.statement_for_context(&added.context).unwrap();
        assert_eq!(found, Some(added));
    }
}

#[test]
fn lookup_of_unknown_context_is_none() {
    let (_db, tree) = dataset();
    let query = LigatureSledQueryTx::new(tree);
    assert_eq!(query.statement_for_context(&Entity(5)).unwrap(), None);
}

#[test]
fn remove_of_absent_context_changes_nothing() {
    let (_db, tree) = dataset();
    let mut tx = LigatureSledWriteTx::new(tree.clone());
    let e1 = tx.new_entity().unwrap();
    let added = tx.add_statement(&statement(&e1, "name", Value::IntegerLiteral(1))).unwrap();
    let before = snapshot(&tree);
    let absent = PersistedStatement {
        statement: added.statement.clone(),
        context: Entity(added.context.0 + 10),
    };
    assert_eq!(tx.remove_statement(&absent), Ok(false));
    assert_eq!(snapshot(&tree), before);
}

#[test]
fn remove_with_wrong_statement_for_context_is_false() {
    let (_db, tree) = dataset();
    let mut tx = LigatureSledWriteTx::new(tree.clone());
    let e1 = tx.new_entity().unwrap();
    let added = tx.add_statement(&statement(&e1, "name", Value::IntegerLiteral(1))).unwrap();
    let before = snapshot(&tree);
    let other = PersistedStatement {
        statement: statement(&e1, "name", Value::IntegerLiteral(2)),
        context: added.context,
    };
    assert_eq!(tx.remove_statement(&other), Ok(false));
    assert_eq!(snapshot(&tree), before);
}

#[test]
fn insert_then_remove_twice() {
    let (_db, tree) = dataset();
    let mut tx = LigatureSledWriteTx::new(tree.clone());
    let e1 = tx.new_entity().unwrap();
    let e2 = tx.new_entity().unwrap();
    let added = tx.add_statement(&statement(&e1, "knows", Value::Entity(e2))).unwrap();
    assert_eq!(tx.remove_statement(&added), Ok(true));
    let query = LigatureSledQueryTx::new(tree.clone());
    assert_eq!(query.all_statements().unwrap().len(), 0);
    assert_eq!(tx.remove_statement(&added), Ok(false));
    assert_eq!(query.all_statements().unwrap().len(), 0);
}

#[test]
fn removing_last_user_releases_attribute() {
    let (_db, tree) = dataset();
    let mut tx = LigatureSledWriteTx::new(tree.clone());
    let e1 = tx.new_entity().unwrap();
    let first = tx.add_statement(&statement(&e1, "name", Value::StringLiteral("Juniper".to_string()))).unwrap();
    let second = tx.add_statement(&statement(&e1, "name", Value::IntegerLiteral(3))).unwrap();
    let name_key = [vec![3u8], b"name".to_vec()].concat();
    let id = tree.get(&name_key).unwrap().unwrap().to_vec();
    let id_key = [vec![4u8], id].concat();
    let text_key = [vec![13u8], b"Juniper".to_vec()].concat();

    assert_eq!(tx.remove_statement(&first), Ok(true));
    assert!(tree.get(&name_key).unwrap().is_some());
    assert!(tree.get(&id_key).unwrap().is_some());
    assert!(tree.get(&text_key).unwrap().is_none());

    assert_eq!(tx.remove_statement(&second), Ok(true));
    assert!(tree.get(&name_key).unwrap().is_none());
    assert!(tree.get(&id_key).unwrap().is_none());
}

#[test]
fn shared_string_literal_stays_interned() {
    let (_db, tree) = dataset();
    let mut tx = LigatureSledWriteTx::new(tree.clone());
    let e1 = tx.new_entity().unwrap();
    let e2 = tx.new_entity().unwrap();
    let first = tx.add_statement(&statement(&e1, "nationality", Value::StringLiteral("French".to_string()))).unwrap();
    tx.add_statement(&statement(&e2, "nationality", Value::StringLiteral("French".to_string()))).unwrap();
    let text_key = [vec![13u8], b"French".to_vec()].concat();
    assert_eq!(tx.remove_statement(&first), Ok(true));
    assert!(tree.get(&text_key).unwrap().is_some());
}

#[test]
fn match_by_entity_returns_its_statements() {
    let (_db, tree) = dataset();
    let mut tx = LigatureSledWriteTx::new(tree.clone());
    let valjean = tx.new_entity().unwrap();
    let javert = tx.new_entity().unwrap();
    let a = tx.add_statement(&statement(&valjean, "nationality", Value::StringLiteral("French".to_string()))).unwrap();
    let b = tx.add_statement(&statement(&valjean, "prisonNumber", Value::IntegerLiteral(24601))).unwrap();
    let c = tx.add_statement(&statement(&javert, "nationality", Value::StringLiteral("French".to_string()))).unwrap();
    let query = LigatureSledQueryTx::new(tree);

    let by_valjean = query.match_statements(Some(valjean), None, None).unwrap();
    assert_eq!(by_valjean.len(), 2);
    assert!(by_valjean.contains(&a) && by_valjean.contains(&b));

    let french = query
        .match_statements(None, None, Some(Value::StringLiteral("French".to_string())))
        .unwrap();
    assert_eq!(french.len(), 2);
    assert!(french.contains(&a) && french.contains(&c));

    let number = query.match_statements(None, None, Some(Value::IntegerLiteral(24601))).unwrap();
    assert_eq!(number, vec![b.clone()]);

    let nationality = Attribute::new("nationality").unwrap();
    let exact = query
        .match_statements(Some(javert), Some(nationality.clone()), Some(Value::StringLiteral("French".to_string())))
        .unwrap();
    assert_eq!(exact, vec![c.clone()]);

    let by_attribute = query.match_statements(None, Some(nationality.clone()), None).unwrap();
    assert_eq!(by_attribute.len(), 2);

    let entity_and_value = query
        .match_statements(Some(valjean), None, Some(Value::IntegerLiteral(24601)))
        .unwrap();
    assert_eq!(entity_and_value, vec![b.clone()]);

    let attribute_and_value = query
        .match_statements(None, Some(nationality.clone()), Some(Value::StringLiteral("French".to_string())))
        .unwrap();
    assert_eq!(attribute_and_value.len(), 2);

    let entity_and_attribute = query.match_statements(Some(valjean), Some(nationality), None).unwrap();
    assert_eq!(entity_and_attribute, vec![a.clone()]);

    assert_eq!(query.match_statements(None, None, None).unwrap().len(), 3);

    let unknown = Attribute::new("unknown").unwrap();
    assert!(query.match_statements(None, Some(unknown), None).unwrap().is_empty());
    assert!(query
        .match_statements(None, None, Some(Value::StringLiteral("German".to_string())))
        .unwrap()
        .is_empty());
}

#[test]
fn statement_with_unallocated_entity_is_refused() {
    let (_db, tree) = dataset();
    let mut tx = LigatureSledWriteTx::new(tree.clone());
    let e1 = tx.new_entity().unwrap();
    let before = snapshot(&tree);
    let bad_subject = statement(&Entity(99), "name", Value::IntegerLiteral(1));
    assert_eq!(tx.add_statement(&bad_subject), Err(LigatureSledError::InvalidEntity));
    let bad_object = statement(&e1, "knows", Value::Entity(Entity(99)));
    assert_eq!(tx.add_statement(&bad_object), Err(LigatureSledError::InvalidEntity));
    assert_eq!(snapshot(&tree), before);
}

#[test]
fn duplicate_context_is_reported() {
    let (_db, tree) = dataset();
    let mut tx = LigatureSledWriteTx::new(tree.clone());
    let e1 = tx.new_entity().unwrap();
    let added = tx.add_statement(&statement(&e1, "name", Value::IntegerLiteral(1))).unwrap();
    let mut forged = vec![11u8];
    forged.extend_from_slice(&added.context.0.to_be_bytes());
    forged.extend_from_slice(&[0u8; 25]);
    tree.insert(forged, Vec::<u8>::new()).unwrap();
    let query = LigatureSledQueryTx::new(tree.clone());
    assert_eq!(query.statement_for_context(&added.context), Err(LigatureSledError::DuplicateContext));
    assert_eq!(tx.remove_statement(&added), Err(LigatureSledError::DuplicateContext));
}

#[test]
fn malformed_counter_is_a_decoding_error() {
    let (_db, tree) = dataset();
    tree.insert([0u8], vec![1u8, 2, 3]).unwrap();
    let mut tx = LigatureSledWriteTx::new(tree);
    assert_eq!(tx.new_entity(), Err(LigatureSledError::DecodingError));
}

#[test]
fn missing_attribute_name_is_corrupted_interning() {
    let (_db, tree) = dataset();
    let mut key = vec![5u8];
    key.extend_from_slice(&1u64.to_be_bytes());
    key.extend_from_slice(&7u64.to_be_bytes());
    key.push(2);
    key.extend_from_slice(&5u64.to_be_bytes());
    key.extend_from_slice(&2u64.to_be_bytes());
    tree.insert(key, Vec::<u8>::new()).unwrap();
    let query = LigatureSledQueryTx::new(tree);
    assert_eq!(query.all_statements(), Err(LigatureSledError::CorruptedInterning));
}

#[test]
fn cancel_and_commit_succeed() {
    let (_db, tree) = dataset();
    let tx = LigatureSledWriteTx::new(tree);
    assert_eq!(tx.cancel(), Ok(()));
    assert_eq!(tx.commit(), Ok(()));
}

#[test]
fn match_ranges_of_literals() {
    let (_db, tree) = dataset();
    let mut tx = LigatureSledWriteTx::new(tree.clone());
    let valjean = tx.new_entity().unwrap();
    let javert = tx.new_entity().unwrap();
    let trout = tx.new_entity().unwrap();
    let fv = tx.add_statement(&statement(&valjean, "nationality", Value::StringLiteral("French".to_string()))).unwrap();
    let pv = tx.add_statement(&statement(&valjean, "prisonNumber", Value::IntegerLiteral(24601))).unwrap();
    let fj = tx.add_statement(&statement(&javert, "nationality", Value::StringLiteral("French".to_string()))).unwrap();
    let pj = tx.add_statement(&statement(&javert, "prisonNumber", Value::IntegerLiteral(24602))).unwrap();
    tx.add_statement(&statement(&trout, "nationality", Value::StringLiteral("American".to_string()))).unwrap();
    tx.add_statement(&statement(&trout, "prisonNumber", Value::IntegerLiteral(24603))).unwrap();
    let query = LigatureSledQueryTx::new(tree);

    let french = query
        .match_statements_range(None, None, Range::StringLiteralRange { start: "French".to_string(), end: "German".to_string() })
        .unwrap();
    assert_eq!(french.len(), 2);
    assert!(french.contains(&fv) && french.contains(&fj));

    let numbers = query
        .match_statements_range(None, None, Range::IntegerLiteralRange { start: 24601, end: 24603 })
        .unwrap();
    assert_eq!(numbers, vec![pv.clone(), pj.clone()]);

    let valjean_numbers = query
        .match_statements_range(Some(valjean), None, Range::IntegerLiteralRange { start: 24601, end: 24603 })
        .unwrap();
    assert_eq!(valjean_numbers, vec![pv.clone()]);

    let prison = Attribute::new("prisonNumber").unwrap();
    let by_attribute = query
        .match_statements_range(None, Some(prison.clone()), Range::IntegerLiteralRange { start: 24602, end: 30000 })
        .unwrap();
    assert_eq!(by_attribute.len(), 2);
    let both = query
        .match_statements_range(Some(javert), Some(prison), Range::IntegerLiteralRange { start: 0, end: 30000 })
        .unwrap();
    assert_eq!(both, vec![pj]);

    let empty = query
        .match_statements_range(None, None, Range::IntegerLiteralRange { start: 24603, end: 24601 })
        .unwrap();
    assert!(empty.is_empty());
}

#[test]
fn match_ranges_across_signs() {
    let (_db, tree) = dataset();
    let mut tx = LigatureSledWriteTx::new(tree.clone());
    let e = tx.new_entity().unwrap();
    for v in [-6i64, -1, 0, 2, 3] {
        tx.add_statement(&statement(&e, "n", Value::IntegerLiteral(v))).unwrap();
    }
    for v in [-1.5f64, 0.5, 2.5] {
        tx.add_statement(&statement(&e, "x", Value::FloatLiteral(v.to_bits()))).unwrap();
    }
    let query = LigatureSledQueryTx::new(tree);
    let ints = query
        .match_statements_range(None, None, Range::IntegerLiteralRange { start: -5, end: 3 })
        .unwrap();
    let got: Vec<Value> = ints.iter().map(|p| p.statement.value.clone()).collect();
    assert_eq!(got, vec![Value::IntegerLiteral(-1), Value::IntegerLiteral(0), Value::IntegerLiteral(2)]);
    let floats = query
        .match_statements_range(
            None,
            None,
            Range::FloatLiteralRange { start: (-2.0f64).to_bits(), end: 1.0f64.to_bits() },
        )
        .unwrap();
    let got: Vec<Value> = floats.iter().map(|p| p.statement.value.clone()).collect();
    assert_eq!(
        got,
        vec![Value::FloatLiteral((-1.5f64).to_bits()), Value::FloatLiteral(0.5f64.to_bits())]
    );
    let unknown = Attribute::new("unknown").unwrap();
    assert!(query
        .match_statements_range(None, Some(unknown), Range::IntegerLiteralRange { start: -5, end: 3 })
        .unwrap()
        .is_empty());
}

#[test]
fn duplicate_statement_is_kept_twice() {
    let (_db, tree) = dataset();
    let mut tx = LigatureSledWriteTx::new(tree.clone());
    let e1 = tx.new_entity().unwrap();
    let s = statement(&e1, "name", Value::StringLiteral("Juniper".to_string()));
    let p1 = tx.add_statement(&s).unwrap();
    let p2 = tx.add_statement(&s).unwrap();
    assert_eq!(p1.statement, p2.statement);
    assert_ne!(p1.context, p2.context);
    let all = LigatureSledQueryTx::new(tree).all_statements().unwrap();
    assert_eq!(all.len(), 2);
    assert!(all.contains(&p1) && all.contains(&p2));
}

#[test]
fn existing_attribute_keeps_its_id_on_add() {
    let (_db, tree) = dataset();
    let mut tx = LigatureSledWriteTx::new(tree.clone());
    let e1 = tx.new_entity().unwrap();
    tx.add_statement(&statement(&e1, "name", Value::IntegerLiteral(1))).unwrap();
    let name_key = [vec![3u8], b"name".to_vec()].concat();
    let id = tree.get(&name_key).unwrap().unwrap().to_vec();
    let attribute_counter = tree.get([1u8]).unwrap().unwrap().to_vec();
    tx.add_statement(&statement(&e1, "name", Value::IntegerLiteral(2))).unwrap();
    assert_eq!(tree.get(&name_key).unwrap().unwrap().to_vec(), id);
    assert_eq!(tree.get([1u8]).unwrap().unwrap().to_vec(), attribute_counter);
    assert_eq!(attribute_counter, 1u64.to_be_bytes().to_vec());
    assert!(tree.get([2u8]).unwrap().is_none());
}

#[test]
fn removal_keeps_counters_and_shared_entries() {
    let (_db, tree) = dataset();
    let mut tx = LigatureSledWriteTx::new(tree.clone());
    let e1 = tx.new_entity().unwrap();
    let first = tx.add_statement(&statement(&e1, "name", Value::StringLiteral("a".to_string()))).unwrap();
    let second = tx.add_statement(&statement(&e1, "name", Value::StringLiteral("a".to_string()))).unwrap();
    let name_key = [vec![3u8], b"name".to_vec()].concat();
    let text_key = [vec![13u8], b"a".to_vec()].concat();
    let before_id = tree.get(&name_key).unwrap().unwrap().to_vec();
    let before_text = tree.get(&text_key).unwrap().unwrap().to_vec();
    let counters: Vec<_> = (0u8..3).map(|t| tree.get([t]).unwrap()).collect();
    assert_eq!(tx.remove_statement(&first), Ok(true));
    assert_eq!(tree.get(&name_key).unwrap().unwrap().to_vec(), before_id);
    assert_eq!(tree.get(&text_key).unwrap().unwrap().to_vec(), before_text);
    let after: Vec<_> = (0u8..3).map(|t| tree.get([t]).unwrap()).collect();
    assert_eq!(counters, after);
    let all = LigatureSledQueryTx::new(tree).all_statements().unwrap();
    assert_eq!(all, vec![second]);
}
