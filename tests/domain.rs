use declarative_dataflow::index::consolidate;
use declarative_dataflow::{CollectionIndex, Domain, Error, TxData, Update, Value};

fn text(x: &str) -> Value {
    Value::String(x.to_string())
}

fn insert(e: u64, a: &str, v: Value) -> TxData {
    TxData(1, e, a.to_string(), v)
}

fn retract(e: u64, a: &str, v: Value) -> TxData {
    TxData(-1, e, a.to_string(), v)
}

#[test]
fn name_attribute_is_indexed_both_ways() {
    let mut d = Domain::new(0);
    assert_eq!(d.create_attribute("name"), Ok(()));
    assert_eq!(d.transact(vec![insert(1, "name", text("Alice"))]), Ok(()));
    d.advance_to(1, None);
    let fwd = d.forward("name").unwrap();
    assert_eq!(fwd.get(&Value::Eid(1), 1), Some(vec![text("Alice")]));
    assert_eq!(fwd.get(&Value::Eid(1), 0), Some(vec![text("Alice")]));
    let rev = d.reverse("name").unwrap();
    assert_eq!(rev.get(&text("Alice"), 1), Some(vec![Value::Eid(1)]));
}

#[test]
fn insert_then_retract_leaves_no_entry() {
    let mut d = Domain::new(0);
    d.create_attribute("age").unwrap();
    d.transact(vec![insert(1, "age", Value::Number(30))]).unwrap();
    d.transact(vec![retract(1, "age", Value::Number(30))]).unwrap();
    d.advance_to(1, None);
    let fwd = d.forward("age").unwrap();
    assert_eq!(fwd.get(&Value::Eid(1), 1), Some(vec![]));
    assert_eq!(fwd.contains(&Value::Eid(1), &Value::Number(30), 1), Some(false));
    let rev = d.reverse("age").unwrap();
    assert_eq!(rev.get(&Value::Number(30), 1), Some(vec![]));
}

#[test]
fn second_creation_conflicts() {
    let mut d = Domain::new(0);
    d.create_attribute("name").unwrap();
    d.transact(vec![insert(7, "name", text("Bob"))]).unwrap();
    let err = d.create_attribute("name").unwrap_err();
    assert_eq!(err, Error::Conflict("name".to_string()));
    assert_eq!(err.category(), "df.error.category/conflict");
    assert_eq!(err.name(), "name");
    // the first attribute's input is still live and keeps its buffered update
    d.transact(vec![insert(8, "name", text("Carol"))]).unwrap();
    d.advance_to(1, None);
    let fwd = d.forward("name").unwrap();
    assert_eq!(fwd.get(&Value::Eid(7), 1), Some(vec![text("Bob")]));
    assert_eq!(fwd.get(&Value::Eid(8), 1), Some(vec![text("Carol")]));
    // closing does not free the name
    d.close_input("name".to_string()).unwrap();
    assert_eq!(d.create_attribute("name"), Err(Error::Conflict("name".to_string())));
}

#[test]
fn source_name_conflicts_too() {
    let mut d = Domain::new(0);
    d.create_attribute("a").unwrap();
    let datoms: Vec<(usize, ((Value, Value), u64, isize))> = vec![];
    assert_eq!(d.create_source("a", None, &datoms), Err(Error::Conflict("a".to_string())));
    assert_eq!(d.create_source("b", None, &datoms), Ok(()));
    assert_eq!(d.create_attribute("b"), Err(Error::Conflict("b".to_string())));
}

#[test]
fn transact_into_unknown_attribute_is_not_found() {
    let mut d = Domain::new(0);
    let err = d.transact(vec![insert(1, "ghost", Value::Bool(true))]).unwrap_err();
    assert_eq!(err, Error::NotFound("ghost".to_string()));
    assert_eq!(err.category(), "df.error.category/not-found");
}

#[test]
fn transact_into_closed_attribute_is_not_found_and_leaves_it() {
    let mut d = Domain::new(0);
    d.create_attribute("name").unwrap();
    d.transact(vec![insert(1, "name", text("Alice"))]).unwrap();
    d.close_input("name".to_string()).unwrap();
    let err = d.transact(vec![insert(2, "name", text("Zed"))]).unwrap_err();
    assert_eq!(err, Error::NotFound("name".to_string()));
    d.advance_to(1, None);
    let fwd = d.forward("name").unwrap();
    assert_eq!(fwd.get(&Value::Eid(1), 1), Some(vec![text("Alice")]));
    assert_eq!(fwd.get(&Value::Eid(2), 1), Some(vec![]));
}

#[test]
fn batch_before_missing_record_stays_applied() {
    let mut d = Domain::new(0);
    d.create_attribute("x").unwrap();
    let err = d
        .transact(vec![
            insert(1, "x", Value::Number(1)),
            insert(2, "missing", Value::Number(2)),
            insert(3, "x", Value::Number(3)),
        ])
        .unwrap_err();
    assert_eq!(err, Error::NotFound("missing".to_string()));
    d.advance_to(1, None);
    let fwd = d.forward("x").unwrap();
    assert_eq!(fwd.get(&Value::Eid(1), 1), Some(vec![Value::Number(1)]));
    assert_eq!(fwd.get(&Value::Eid(3), 1), Some(vec![]));
}

#[test]
fn transact_into_source_is_not_found() {
    let mut d = Domain::new(0);
    let datoms: Vec<(usize, ((Value, Value), u64, isize))> = vec![];
    d.create_source("src", None, &datoms).unwrap();
    assert_eq!(
        d.transact(vec![insert(1, "src", Value::Number(1))]),
        Err(Error::NotFound("src".to_string()))
    );
    assert_eq!(d.close_input("src".to_string()), Err(Error::NotFound("src".to_string())));
}

#[test]
fn close_input_twice_is_not_found() {
    let mut d = Domain::new(0);
    d.create_attribute("a").unwrap();
    assert_eq!(d.close_input("a".to_string()), Ok(()));
    assert_eq!(d.close_input("a".to_string()), Err(Error::NotFound("a".to_string())));
    assert_eq!(d.close_input("b".to_string()), Err(Error::NotFound("b".to_string())));
}

#[test]
fn close_input_flushes_buffered_updates() {
    let mut d = Domain::new(4);
    d.create_attribute("a").unwrap();
    d.transact(vec![insert(1, "a", Value::Bool(true))]).unwrap();
    d.close_input("a".to_string()).unwrap();
    let fwd = d.forward("a").unwrap();
    assert_eq!(fwd.contains(&Value::Eid(1), &Value::Bool(true), 4), Some(true));
    assert_eq!(fwd.contains(&Value::Eid(1), &Value::Bool(true), 3), Some(false));
}

#[test]
fn clock_only_moves_forward() {
    let mut d = Domain::new(3);
    assert_eq!(*d.time(), 3);
    d.advance_to(3, None);
    assert_eq!(*d.time(), 3);
    d.advance_to(5, None);
    assert_eq!(*d.time(), 5);
    d.advance_to(9, Some(2));
    assert_eq!(*d.time(), 9);
}

#[test]
fn advancing_to_the_same_time_flushes_nothing() {
    let mut d = Domain::new(0);
    d.create_attribute("a").unwrap();
    d.transact(vec![insert(1, "a", Value::Number(5))]).unwrap();
    d.advance_to(0, Some(0));
    let fwd = d.forward("a").unwrap();
    assert_eq!(fwd.get(&Value::Eid(1), 0), Some(vec![]));
    d.advance_to(1, None);
    let fwd = d.forward("a").unwrap();
    assert_eq!(fwd.get(&Value::Eid(1), 0), Some(vec![Value::Number(5)]));
}

#[test]
fn updates_are_invisible_until_the_clock_advances() {
    let mut d = Domain::new(0);
    d.create_attribute("a").unwrap();
    d.transact(vec![insert(1, "a", Value::Number(5))]).unwrap();
    assert_eq!(d.forward("a").unwrap().get(&Value::Eid(1), 10), Some(vec![]));
    d.advance_to(2, None);
    d.transact(vec![retract(1, "a", Value::Number(5))]).unwrap();
    d.advance_to(3, None);
    let fwd = d.forward("a").unwrap();
    assert_eq!(fwd.get(&Value::Eid(1), 1), Some(vec![Value::Number(5)]));
    assert_eq!(fwd.get(&Value::Eid(1), 2), Some(vec![]));
}

#[test]
fn reverse_index_is_the_transpose() {
    let mut d = Domain::new(0);
    d.create_attribute("likes").unwrap();
    d.transact(vec![
        insert(1, "likes", text("tea")),
        insert(1, "likes", text("jam")),
        insert(2, "likes", text("tea")),
    ])
    .unwrap();
    d.advance_to(1, None);
    let fwd = d.forward("likes").unwrap();
    let rev = d.reverse("likes").unwrap();
    assert_eq!(fwd.get(&Value::Eid(1), 0), Some(vec![text("tea"), text("jam")]));
    assert_eq!(fwd.get(&Value::Eid(2), 0), Some(vec![text("tea")]));
    assert_eq!(rev.get(&text("tea"), 0), Some(vec![Value::Eid(1), Value::Eid(2)]));
    assert_eq!(rev.get(&text("jam"), 0), Some(vec![Value::Eid(1)]));
    for (e, v) in [(1u64, "tea"), (1, "jam"), (2, "tea"), (2, "jam")] {
        assert_eq!(
            fwd.contains(&Value::Eid(e), &text(v), 0),
            rev.contains(&text(v), &Value::Eid(e), 0)
        );
    }
}

#[test]
fn redundant_updates_collapse_to_one() {
    let mut d = Domain::new(0);
    d.create_attribute("a").unwrap();
    d.transact(vec![
        insert(1, "a", Value::Number(4)),
        insert(1, "a", Value::Number(4)),
        retract(1, "a", Value::Number(4)),
    ])
    .unwrap();
    d.advance_to(1, None);
    let fwd = d.forward("a").unwrap();
    assert_eq!(fwd.get(&Value::Eid(1), 0), Some(vec![Value::Number(4)]));
    assert_eq!(fwd.contains(&Value::Eid(1), &Value::Number(4), 0), Some(true));
    let rev = d.reverse("a").unwrap();
    assert_eq!(rev.get(&Value::Number(4), 0), Some(vec![Value::Eid(1)]));
}

#[test]
fn retention_frontier_limits_history_reads() {
    let mut d = Domain::new(0);
    d.create_attribute("a").unwrap();
    d.transact(vec![insert(1, "a", Value::Number(1))]).unwrap();
    d.advance_to(1, None);
    d.transact(vec![retract(1, "a", Value::Number(1)), insert(1, "a", Value::Number(2))])
        .unwrap();
    d.advance_to(5, Some(3));
    assert_eq!(*d.time(), 5);
    let fwd = d.forward("a").unwrap();
    assert_eq!(fwd.since(), 3);
    assert_eq!(fwd.get(&Value::Eid(1), 2), None);
    assert_eq!(fwd.contains(&Value::Eid(1), &Value::Number(1), 0), None);
    assert_eq!(fwd.get(&Value::Eid(1), 3), Some(vec![Value::Number(2)]));
    assert_eq!(fwd.get(&Value::Eid(1), 5), Some(vec![Value::Number(2)]));
    let rev = d.reverse("a").unwrap();
    assert_eq!(rev.since(), 3);
    assert_eq!(rev.get(&Value::Number(2), 3), Some(vec![Value::Eid(1)]));
    assert_eq!(rev.get(&Value::Number(1), 4), Some(vec![]));
}

#[test]
fn retention_never_moves_back() {
    let mut d = Domain::new(0);
    d.create_attribute("a").unwrap();
    d.advance_to(5, Some(4));
    d.advance_to(6, Some(2));
    assert_eq!(d.forward("a").unwrap().since(), 4);
    assert_eq!(d.reverse("a").unwrap().since(), 4);
}

#[test]
fn source_selects_by_discriminant() {
    let mut d = Domain::new(0);
    let datoms: Vec<(usize, ((Value, Value), u64, isize))> = vec![
        (0, ((Value::Eid(1), text("x")), 0, 1)),
        (1, ((Value::Eid(1), text("y")), 0, 1)),
        (0, ((Value::Eid(2), text("x")), 2, 1)),
        (0, ((Value::Eid(1), text("x")), 3, -1)),
    ];
    d.create_source("zero", Some(0), &datoms).unwrap();
    d.create_source("all", None, &datoms).unwrap();
    let zero = d.forward("zero").unwrap();
    assert_eq!(zero.get(&Value::Eid(1), 0), Some(vec![text("x")]));
    assert_eq!(zero.get(&Value::Eid(1), 3), Some(vec![]));
    assert_eq!(zero.get(&Value::Eid(2), 1), Some(vec![]));
    assert_eq!(zero.get(&Value::Eid(2), 2), Some(vec![text("x")]));
    let zero_rev = d.reverse("zero").unwrap();
    assert_eq!(zero_rev.get(&text("x"), 2), Some(vec![Value::Eid(1), Value::Eid(2)]));
    assert_eq!(zero_rev.get(&text("y"), 2), Some(vec![]));
    let all = d.forward("all").unwrap();
    assert_eq!(all.get(&Value::Eid(1), 0), Some(vec![text("x"), text("y")]));
}

#[test]
fn unknown_attribute_has_no_index() {
    let d = Domain::new(0);
    assert!(d.forward("nope").is_none());
    assert!(d.reverse("nope").is_none());
}

#[test]
fn index_compaction_keeps_later_reads() {
    let mut ix = CollectionIndex::new();
    assert_eq!(ix.since(), 0);
    let updates = vec![
        Update { key: Value::Eid(1), val: Value::Number(1), time: 1, diff: 1 },
        Update { key: Value::Eid(1), val: Value::Number(1), time: 4, diff: -1 },
        Update { key: Value::Eid(1), val: Value::Number(2), time: 2, diff: 2 },
    ];
    ix.extend(&updates, false);
    assert_eq!(ix.get(&Value::Eid(1), 2), Some(vec![Value::Number(1), Value::Number(2)]));
    assert_eq!(ix.get(&Value::Eid(1), 4), Some(vec![Value::Number(2)]));
    ix.advance_by(3);
    assert_eq!(ix.get(&Value::Eid(1), 2), None);
    assert_eq!(ix.get(&Value::Eid(1), 3), Some(vec![Value::Number(1), Value::Number(2)]));
    assert_eq!(ix.get(&Value::Eid(1), 4), Some(vec![Value::Number(2)]));
    let mut swapped = CollectionIndex::new();
    swapped.extend(&updates, true);
    assert_eq!(swapped.get(&Value::Number(2), 2), Some(vec![Value::Eid(1)]));
    assert_eq!(swapped.contains(&Value::Number(1), &Value::Eid(1), 4), Some(false));
}

#[test]
fn values_compare_structurally() {
    assert!(Value::Eid(1).equals(&Value::Eid(1)));
    assert!(!Value::Eid(1).equals(&Value::Number(1)));
    assert!(text("a").equals(&text("a")));
    assert!(!text("a").equals(&Value::Aid("a".to_string())));
    assert_eq!(Value::Aid("k".to_string()).duplicate(), Value::Aid("k".to_string()));
}

#[test]
fn consolidation_merges_equal_updates() {
    let updates = vec![
        Update { key: Value::Eid(1), val: text("x"), time: 0, diff: 1 },
        Update { key: Value::Eid(2), val: text("y"), time: 1, diff: 1 },
        Update { key: Value::Eid(1), val: text("x"), time: 0, diff: 1 },
        Update { key: Value::Eid(2), val: text("y"), time: 1, diff: -1 },
        Update { key: Value::Eid(1), val: text("x"), time: 0, diff: -1 },
    ];
    let merged = consolidate(updates);
    assert_eq!(merged.len(), 1);
    assert_eq!(merged[0].key, Value::Eid(1));
    assert_eq!(merged[0].val, text("x"));
    assert_eq!(merged[0].time, 0);
    assert_eq!(merged[0].diff, 1);
}

#[test]
fn consolidation_leaves_overflowing_batches_alone() {
    let updates = vec![
        Update { key: Value::Eid(1), val: text("x"), time: 0, diff: isize::MAX },
        Update { key: Value::Eid(1), val: text("x"), time: 0, diff: 1 },
    ];
    let kept = consolidate(updates);
    assert_eq!(kept.len(), 2);
    assert_eq!(kept[1].diff, 1);
}

#[test]
fn source_records_are_consolidated() {
    let mut d = Domain::new(0);
    let datoms: Vec<(usize, ((Value, Value), u64, isize))> = vec![
        (3, ((Value::Eid(1), text("x")), 0, 1)),
        (3, ((Value::Eid(1), text("x")), 0, 1)),
        (3, ((Value::Eid(1), text("x")), 0, -1)),
    ];
    d.create_source("s", Some(3), &datoms).unwrap();
    let fwd = d.forward("s").unwrap();
    assert_eq!(fwd.get(&Value::Eid(1), 0), Some(vec![text("x")]));
    assert_eq!(d.reverse("s").unwrap().get(&text("x"), 0), Some(vec![Value::Eid(1)]));
}
