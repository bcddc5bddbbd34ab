//! Upsert resolution end to end: splitting, evolution, chaining, fresh
//! allocation, and the error paths.

use mentat::db::{Partition, PartitionMap};
use mentat::errors::DbError;
use mentat::internal_types::{EntityPlace, OpType, TempIdMap, TermWithTempIds, TermWithoutTempIds,
    ValuePlace};
use mentat::tx::{transact_terms, AVStore};
use mentat::types::{Attribute, Entid, Schema, TempId, TypedValue, ValueType};
use mentat::upsert_resolution::Generation;

const UNIQUE_ATTR: Entid = 10;
const NAME_ATTR: Entid = 11;
const REF_ATTR: Entid = 12;

fn test_schema() -> Schema {
    let mut schema = Schema::new();
    let unique = Attribute {
        value_type: ValueType::String,
        multival: false,
        unique_value: true,
        unique_identity: true,
        index: true,
        fulltext: false,
        component: false,
    };
    let name = Attribute {
        value_type: ValueType::String,
        multival: false,
        unique_value: false,
        unique_identity: false,
        index: false,
        fulltext: false,
        component: false,
    };
    let reference = Attribute { value_type: ValueType::Ref, unique_identity: true, ..name };
    schema.define_attribute(UNIQUE_ATTR, unique);
    schema.define_attribute(NAME_ATTR, name);
    schema.define_attribute(REF_ATTR, reference);
    schema
}

fn user_partition_map() -> (PartitionMap, String) {
    let mut map = PartitionMap::new();
    let name = String::from("db.part/user");
    map.insert(name.clone(), Partition::new(65536, 131072, 65536, false));
    (map, name)
}

fn tempid(name: &str) -> TempId {
    TempId(String::from(name))
}

fn add_ev(t: &str, a: Entid, v: TypedValue) -> TermWithTempIds {
    TermWithTempIds {
        op: OpType::Add,
        e: EntityPlace::TempId(tempid(t)),
        a,
        v: ValuePlace::Value(v),
    }
}

fn add_chain(t1: &str, a: Entid, t2: &str) -> TermWithTempIds {
    TermWithTempIds {
        op: OpType::Add,
        e: EntityPlace::TempId(tempid(t1)),
        a,
        v: ValuePlace::TempId(tempid(t2)),
    }
}

fn string_value(s: &str) -> TypedValue {
    TypedValue::String(String::from(s))
}

fn done(op: OpType, e: Entid, a: Entid, v: TypedValue) -> TermWithoutTempIds {
    TermWithoutTempIds { op, e, a, v }
}

#[test]
fn fresh_batch_allocates_one_shared_entid() {
    // Two assertions about one placeholder, nothing matching in the store:
    // both end in `allocated`, sharing one freshly allocated entity id.
    let schema = test_schema();
    let store = AVStore::new();
    let (mut map, user) = user_partition_map();
    let terms = vec![
        add_ev("t1", UNIQUE_ATTR, string_value("x")),
        add_ev("t1", NAME_ATTR, string_value("Alice")),
    ];
    let (pops, tempids, inert) =
        transact_terms(terms, &schema, &store, &mut map, &user).unwrap();
    assert!(inert.is_empty());
    assert!(pops.upserted.is_empty());
    assert!(pops.resolved.is_empty());
    assert_eq!(pops.allocated, vec![
        done(OpType::Add, 65536, UNIQUE_ATTR, string_value("x")),
        done(OpType::Add, 65536, NAME_ATTR, string_value("Alice")),
    ]);
    assert_eq!(tempids.get(&tempid("t1")), Some(65536));
    assert_eq!(map.get(&user).unwrap().next_entid(), 65537);
}

#[test]
fn existing_entity_upserts_and_chains() {
    // The same batch, but entity 100 already asserts the unique pair: the
    // first term upserts to 100 and the second resolves to 100 by chaining
    // through the same round's map.
    let schema = test_schema();
    let mut store = AVStore::new();
    store.add_assertion(UNIQUE_ATTR, string_value("x"), 100);
    let (mut map, user) = user_partition_map();
    let terms = vec![
        add_ev("t1", UNIQUE_ATTR, string_value("x")),
        add_ev("t1", NAME_ATTR, string_value("Alice")),
    ];
    let (pops, tempids, inert) =
        transact_terms(terms, &schema, &store, &mut map, &user).unwrap();
    assert!(inert.is_empty());
    assert_eq!(pops.upserted, vec![done(OpType::Add, 100, UNIQUE_ATTR, string_value("x"))]);
    assert_eq!(pops.resolved, vec![done(OpType::Add, 100, NAME_ATTR, string_value("Alice"))]);
    assert!(pops.allocated.is_empty());
    // Nothing required allocation: no final binding, and the cursor did not
    // move.
    assert!(tempids.is_empty());
    assert_eq!(map.get(&user).unwrap().next_entid(), 65536);
}

#[test]
fn distinct_candidates_upsert_to_the_same_entity() {
    // Two structurally distinct candidates naming the same unique pair must
    // both upsert to the one existing entity.
    let schema = test_schema();
    let mut store = AVStore::new();
    store.add_assertion(UNIQUE_ATTR, string_value("x"), 100);
    let (mut map, user) = user_partition_map();
    let terms = vec![
        add_ev("t1", UNIQUE_ATTR, string_value("x")),
        add_ev("t2", UNIQUE_ATTR, string_value("x")),
    ];
    let (pops, tempids, _) = transact_terms(terms, &schema, &store, &mut map, &user).unwrap();
    assert_eq!(pops.upserted, vec![
        done(OpType::Add, 100, UNIQUE_ATTR, string_value("x")),
        done(OpType::Add, 100, UNIQUE_ATTR, string_value("x")),
    ]);
    // Both placeholders upserted; neither required allocation.
    assert!(tempids.is_empty());
}

#[test]
fn two_link_chain_resolves_fully() {
    // t1 --ref--> t2, t2 grounded through a unique string pair, and the
    // store also knowing the reference pair: everything upserts, within two
    // rounds.
    let schema = test_schema();
    let mut store = AVStore::new();
    store.add_assertion(UNIQUE_ATTR, string_value("x"), 7);
    store.add_assertion(REF_ATTR, TypedValue::Ref(7), 5);
    let (mut map, user) = user_partition_map();
    let terms = vec![
        add_chain("t1", REF_ATTR, "t2"),
        add_ev("t2", UNIQUE_ATTR, string_value("x")),
    ];
    let (pops, tempids, _) = transact_terms(terms, &schema, &store, &mut map, &user).unwrap();
    assert_eq!(pops.upserted, vec![
        done(OpType::Add, 7, UNIQUE_ATTR, string_value("x")),
        done(OpType::Add, 5, REF_ATTR, TypedValue::Ref(7)),
    ]);
    assert!(pops.resolved.is_empty());
    assert!(pops.allocated.is_empty());
    assert!(tempids.is_empty());
}

#[test]
fn three_link_chain_allocates_the_bottom() {
    // In a three-placeholder chain only the upper links upsert: the complex
    // candidate whose placeholders both stayed unresolved in round one is
    // permanently downgraded, so its entity is freshly allocated even though
    // its value side chains through.
    let schema = test_schema();
    let mut store = AVStore::new();
    store.add_assertion(UNIQUE_ATTR, string_value("x"), 7);
    store.add_assertion(REF_ATTR, TypedValue::Ref(7), 5);
    let (mut map, user) = user_partition_map();
    let terms = vec![
        add_chain("t1", REF_ATTR, "t2"),
        add_chain("t2", REF_ATTR, "t3"),
        add_ev("t3", UNIQUE_ATTR, string_value("x")),
    ];
    let (pops, tempids, _) = transact_terms(terms, &schema, &store, &mut map, &user).unwrap();
    assert_eq!(pops.upserted, vec![
        done(OpType::Add, 7, UNIQUE_ATTR, string_value("x")),
        done(OpType::Add, 5, REF_ATTR, TypedValue::Ref(7)),
    ]);
    assert!(pops.resolved.is_empty());
    assert_eq!(pops.allocated, vec![done(OpType::Add, 65536, REF_ATTR, TypedValue::Ref(5))]);
    // Only the downgraded bottom of the chain needed a fresh id.
    assert_eq!(tempids.get(&tempid("t1")), Some(65536));
    assert_eq!(tempids.get(&tempid("t2")), None);
    assert_eq!(tempids.get(&tempid("t3")), None);
}

#[test]
fn inert_terms_pass_through_untouched() {
    let schema = test_schema();
    let store = AVStore::new();
    let (mut map, user) = user_partition_map();
    let inert_term = TermWithTempIds {
        op: OpType::Add,
        e: EntityPlace::Entid(42),
        a: NAME_ATTR,
        v: ValuePlace::Value(string_value("z")),
    };
    let terms = vec![inert_term, add_ev("t1", NAME_ATTR, string_value("w"))];
    let (pops, _, inert) = transact_terms(terms, &schema, &store, &mut map, &user).unwrap();
    assert_eq!(inert, vec![TermWithTempIds {
        op: OpType::Add,
        e: EntityPlace::Entid(42),
        a: NAME_ATTR,
        v: ValuePlace::Value(string_value("z")),
    }]);
    assert!(pops.upserted.is_empty());
    assert!(pops.resolved.is_empty());
    assert_eq!(pops.allocated, vec![done(OpType::Add, 65536, NAME_ATTR, string_value("w"))]);
}

#[test]
fn retract_of_unknown_placeholder_is_rejected() {
    // A retraction naming a placeholder no assertion establishes must fail,
    // and the partition cursor must be left untouched.
    let schema = test_schema();
    let store = AVStore::new();
    let (mut map, user) = user_partition_map();
    let terms = vec![
        add_ev("t1", NAME_ATTR, string_value("w")),
        TermWithTempIds {
            op: OpType::Retract,
            e: EntityPlace::TempId(tempid("ghostly")),
            a: NAME_ATTR,
            v: ValuePlace::Value(string_value("v")),
        },
    ];
    let r = transact_terms(terms, &schema, &store, &mut map, &user);
    match r {
        Err(DbError::UnresolvedRetractTempId(t)) => assert_eq!(t.0, "ghostly"),
        other => panic!("expected an unresolved retraction, got {:?}", other),
    }
    assert_eq!(map.get(&user).unwrap().next_entid(), 65536);
}

#[test]
fn unknown_attribute_is_rejected() {
    let schema = test_schema();
    let store = AVStore::new();
    let (mut map, user) = user_partition_map();
    let terms = vec![add_ev("t1", 99, string_value("x"))];
    let r = transact_terms(terms, &schema, &store, &mut map, &user);
    match r {
        Err(DbError::UnknownAttribute(a)) => assert_eq!(a, 99),
        other => panic!("expected an unknown attribute error, got {:?}", other),
    }
}

#[test]
fn conflicting_store_rows_are_a_fatal_fault() {
    // Two store rows bind the same unique pair to different entities: the
    // lookup reports the fault instead of silently picking one.
    let schema = test_schema();
    let mut store = AVStore::new();
    store.add_assertion(UNIQUE_ATTR, string_value("x"), 100);
    store.add_assertion(UNIQUE_ATTR, string_value("x"), 101);
    let (mut map, user) = user_partition_map();
    let terms = vec![add_ev("t1", UNIQUE_ATTR, string_value("x"))];
    let r = transact_terms(terms, &schema, &store, &mut map, &user);
    match r {
        Err(DbError::AVResolutionConflict(a, e1, e2)) => {
            assert_eq!(a, UNIQUE_ATTR);
            assert_eq!(e1, 100);
            assert_eq!(e2, 101);
        },
        other => panic!("expected a consistency fault, got {:?}", other),
    }
}

#[test]
fn exhausted_partition_is_a_hard_failure() {
    let schema = test_schema();
    let store = AVStore::new();
    let mut map = PartitionMap::new();
    let user = String::from("db.part/user");
    map.insert(user.clone(), Partition::new(100, 100, 100, false));
    let terms = vec![add_ev("t1", NAME_ATTR, string_value("w"))];
    let r = transact_terms(terms, &schema, &store, &mut map, &user);
    match r {
        Err(DbError::PartitionExhausted(name)) => assert_eq!(name, "db.part/user"),
        other => panic!("expected partition exhaustion, got {:?}", other),
    }
    assert_eq!(map.get(&user).unwrap().next_entid(), 100);
}

#[test]
fn generation_split_and_candidate_queries() {
    let schema = test_schema();
    let terms = vec![
        add_ev("t1", UNIQUE_ATTR, string_value("x")),
        add_chain("t2", REF_ATTR, "t3"),
        add_ev("t4", NAME_ATTR, string_value("n")),
        TermWithTempIds {
            op: OpType::Add,
            e: EntityPlace::Entid(1),
            a: NAME_ATTR,
            v: ValuePlace::Value(string_value("inert")),
        },
    ];
    let (generation, inert) = Generation::from(terms, &schema).unwrap();
    assert_eq!(inert.len(), 1);
    assert!(generation.can_evolve());
    let avs = generation.temp_id_avs();
    assert_eq!(avs.len(), 1);
    assert_eq!(avs[0].0, tempid("t1"));
    assert_eq!(avs[0].1, (UNIQUE_ATTR, string_value("x")));

    // One evolution step with an empty map downgrades everything.
    let empty = TempIdMap::new();
    let generation = generation.evolve_one_step(&empty);
    assert!(!generation.can_evolve());
    let mut pending = generation.temp_ids_in_allocations();
    let names: Vec<String> = pending.drain(..).map(|t| t.0).collect();
    assert_eq!(names, vec![
        String::from("t1"),
        String::from("t2"),
        String::from("t3"),
        String::from("t4"),
    ]);
}

#[test]
fn retraction_with_known_placeholder_resolves() {
    // A retraction's placeholder that also appears in an assertion receives
    // the same freshly allocated id.
    let schema = test_schema();
    let store = AVStore::new();
    let (mut map, user) = user_partition_map();
    let terms = vec![
        add_ev("t1", NAME_ATTR, string_value("w")),
        TermWithTempIds {
            op: OpType::Retract,
            e: EntityPlace::TempId(tempid("t1")),
            a: NAME_ATTR,
            v: ValuePlace::Value(string_value("old")),
        },
    ];
    let (pops, tempids, _) = transact_terms(terms, &schema, &store, &mut map, &user).unwrap();
    assert_eq!(pops.allocated, vec![
        done(OpType::Add, 65536, NAME_ATTR, string_value("w")),
        done(OpType::Retract, 65536, NAME_ATTR, string_value("old")),
    ]);
    assert_eq!(tempids.get(&tempid("t1")), Some(65536));
}

#[test]
fn retract_reports_the_entity_placeholder_first() {
    // Both places of the retraction hold unknown placeholders: the error
    // names the entity-place one.
    let schema = test_schema();
    let store = AVStore::new();
    let (mut map, user) = user_partition_map();
    let terms = vec![TermWithTempIds {
        op: OpType::Retract,
        e: EntityPlace::TempId(tempid("gone")),
        a: REF_ATTR,
        v: ValuePlace::TempId(tempid("also-gone")),
    }];
    match transact_terms(terms, &schema, &store, &mut map, &user) {
        Err(DbError::UnresolvedRetractTempId(t)) => assert_eq!(t.0, "gone"),
        other => panic!("expected an unresolved retraction, got {:?}", other),
    }
}

#[test]
fn retract_reports_the_value_placeholder_when_the_entity_resolves() {
    // The retraction's entity placeholder is established by an assertion,
    // but its value placeholder is not: the error names the value-place one.
    let schema = test_schema();
    let store = AVStore::new();
    let (mut map, user) = user_partition_map();
    let terms = vec![
        add_ev("t1", NAME_ATTR, string_value("w")),
        TermWithTempIds {
            op: OpType::Retract,
            e: EntityPlace::TempId(tempid("t1")),
            a: REF_ATTR,
            v: ValuePlace::TempId(tempid("never")),
        },
    ];
    match transact_terms(terms, &schema, &store, &mut map, &user) {
        Err(DbError::UnresolvedRetractTempId(t)) => assert_eq!(t.0, "never"),
        other => panic!("expected an unresolved retraction, got {:?}", other),
    }
    // The rolled-back cursor shows no identifiers were consumed.
    assert_eq!(map.get(&user).unwrap().next_entid(), 65536);
}
