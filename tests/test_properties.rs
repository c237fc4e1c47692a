use mock_store::{Error, Store};
use modql::filter::{FilterGroups, FilterNode};
use serde_json::Value;
use std::any::TypeId;

struct Ticket;

struct Project;

struct Note;

fn ticket(id: u64, title: &str) -> Value {
    let mut m = serde_json::Map::new();
    m.insert("id".to_string(), Value::from(id));
    m.insert("title".to_string(), Value::from(title));
    Value::Object(m)
}

fn title_is(t: &str) -> FilterGroups {
    FilterGroups::from(FilterNode::from(("title", t)))
}

fn titles(vs: &[Value]) -> Vec<String> {
    vs.iter().map(|v| v["title"].as_str().unwrap().to_string()).collect()
}

fn tickets(ts: &[&str]) -> Store {
    let mut store = Store::new();
    let mut id: u64 = 1;
    for t in ts {
        store.insert(TypeId::of::<Ticket>(), ticket(id, t));
        id += 1;
    }
    store
}

fn keep(v: &Value) -> Result<Value, Error> {
    Ok(v.clone())
}

fn shout(v: &Value) -> Result<Value, Error> {
    let mut t = v.clone();
    let upper = t["title"].as_str().unwrap().to_uppercase();
    t["title"] = Value::from(upper);
    Ok(t)
}

fn fail_on_second(v: &Value) -> Result<Value, Error> {
    if v["id"].as_u64() == Some(2) {
        let e = serde_json::from_value::<u64>(Value::from("not a number")).unwrap_err();
        return Err(Error::from(e));
    }
    shout(v)
}

#[test]
fn unused_type_reads_empty_and_refuses_changes() {
    let mut store = tickets(&["a"]);
    let ty = TypeId::of::<Note>();
    assert!(store.list(ty, &None).is_empty());
    assert!(store.list(ty, &Some(title_is("a"))).is_empty());
    assert_eq!(None, store.first(ty, &None));
    assert_eq!(Err(Error::FailToDeleteNoStoreForType), store.delete(ty, &title_is("a")));
    assert_eq!(Err(Error::FailToUpdateNoStoreForType), store.update(ty, &title_is("a"), keep));
    assert_eq!(1, store.list(TypeId::of::<Ticket>(), &None).len());
}

#[test]
fn sequence_counts_from_one_per_type() {
    let mut store = Store::new();
    for k in 1..=5u64 {
        assert_eq!(k, store.seq_next(TypeId::of::<Ticket>()));
    }
    assert_eq!(1, store.seq_next(TypeId::of::<Project>()));
    assert_eq!(6, store.seq_next(TypeId::of::<Ticket>()));
    assert_eq!(2, store.seq_next(TypeId::of::<Project>()));
    assert_eq!(6, store.current_seq(TypeId::of::<Ticket>()));
    assert_eq!(0, store.current_seq(TypeId::of::<Note>()));
}

#[test]
fn sequence_is_not_reused_after_delete() {
    let mut store = tickets(&["a", "b"]);
    assert_eq!(1, store.seq_next(TypeId::of::<Ticket>()));
    assert_eq!(Ok(1), store.delete(TypeId::of::<Ticket>(), &FilterGroups::from(FilterNode::from(("id", 1)))));
    assert_eq!(2, store.seq_next(TypeId::of::<Ticket>()));
}

#[test]
fn insert_keeps_order() {
    let mut store = Store::new();
    let (a, b, c) = (ticket(1, "A"), ticket(2, "B"), ticket(3, "C"));
    store.insert(TypeId::of::<Ticket>(), a.clone());
    store.insert(TypeId::of::<Ticket>(), b.clone());
    store.insert(TypeId::of::<Ticket>(), c.clone());
    assert_eq!(vec![a, b, c], store.list(TypeId::of::<Ticket>(), &None));
}

#[test]
fn duplicates_are_kept() {
    let mut store = tickets(&["same", "same"]);
    store.insert(TypeId::of::<Ticket>(), ticket(1, "same"));
    assert_eq!(3, store.list(TypeId::of::<Ticket>(), &Some(title_is("same"))).len());
}

#[test]
fn types_are_kept_apart() {
    let mut store = tickets(&["a", "b"]);
    store.insert(TypeId::of::<Project>(), ticket(9, "a"));
    assert_eq!(vec!["a", "b"], titles(&store.list(TypeId::of::<Ticket>(), &None)));
    assert_eq!(vec!["a"], titles(&store.list(TypeId::of::<Project>(), &None)));
}

#[test]
fn value_round_trips_through_the_store() {
    let mut store = Store::new();
    let original: (u64, String) = (7, "seven".to_string());
    store.insert(TypeId::of::<(u64, String)>(), serde_json::to_value(&original).unwrap());
    let back: Vec<(u64, String)> = store
        .list(TypeId::of::<(u64, String)>(), &None)
        .into_iter()
        .map(|v| serde_json::from_value(v).unwrap())
        .collect();
    assert_eq!(vec![original], back);
}

#[test]
fn filtered_list_is_ordered_subset() {
    let store = tickets(&["x", "y", "x", "z", "x"]);
    let all = store.list(TypeId::of::<Ticket>(), &None);
    let some = store.list(TypeId::of::<Ticket>(), &Some(title_is("x")));
    assert_eq!(vec![all[0].clone(), all[2].clone(), all[4].clone()], some);
    let ids: Vec<u64> = some.iter().map(|v| v["id"].as_u64().unwrap()).collect();
    assert_eq!(vec![1, 3, 5], ids);
}

#[test]
fn first_is_head_of_list() {
    let store = tickets(&["y", "x", "x"]);
    let f = Some(title_is("x"));
    let first = store.first(TypeId::of::<Ticket>(), &f);
    assert_eq!(store.list(TypeId::of::<Ticket>(), &f).first().cloned(), first);
    assert_eq!(Some(2), first.map(|v| v["id"].as_u64().unwrap()));
    assert_eq!(None, store.first(TypeId::of::<Ticket>(), &Some(title_is("w"))));
    assert_eq!(Some(ticket(1, "y")), store.first(TypeId::of::<Ticket>(), &None));
}

#[test]
fn delete_removes_exactly_the_matches() {
    let mut store = tickets(&["x", "y", "x", "z"]);
    assert_eq!(Ok(2), store.delete(TypeId::of::<Ticket>(), &title_is("x")));
    assert!(store.list(TypeId::of::<Ticket>(), &Some(title_is("x"))).is_empty());
    assert_eq!(vec!["y", "z"], titles(&store.list(TypeId::of::<Ticket>(), &None)));
    assert_eq!(Ok(0), store.delete(TypeId::of::<Ticket>(), &title_is("x")));
}

#[test]
fn update_without_match_changes_nothing() {
    let mut store = tickets(&["a", "b"]);
    let before = store.list(TypeId::of::<Ticket>(), &None);
    assert_eq!(Ok(0), store.update(TypeId::of::<Ticket>(), &title_is("none"), shout));
    assert_eq!(before, store.list(TypeId::of::<Ticket>(), &None));
}

#[test]
fn update_counts_the_matches() {
    let mut store = tickets(&["a", "b", "a"]);
    assert_eq!(Ok(2), store.update(TypeId::of::<Ticket>(), &title_is("a"), shout));
    assert_eq!(vec!["A", "b", "A"], titles(&store.list(TypeId::of::<Ticket>(), &None)));
}

#[test]
fn update_stops_at_first_failure() {
    let mut store = tickets(&["a", "a", "a"]);
    let r = store.update(TypeId::of::<Ticket>(), &title_is("a"), fail_on_second);
    assert_eq!(Err(Error::FailFromOrToJsonValue), r);
    assert_eq!(vec!["A", "a", "a"], titles(&store.list(TypeId::of::<Ticket>(), &None)));
}

#[test]
fn json_error_converts() {
    let e = serde_json::from_value::<u64>(Value::from("x")).unwrap_err();
    assert_eq!(Error::FailFromOrToJsonValue, Error::from(e));
}

#[test]
fn delete_byebye_scenario() {
    let mut store = tickets(&["hello one", "hello two", "byebye all", "byebye all", "something else"]);
    assert_eq!(Ok(2), store.delete(TypeId::of::<Ticket>(), &title_is("byebye all")));
    assert!(store.list(TypeId::of::<Ticket>(), &Some(title_is("byebye all"))).is_empty());
    let left = store.list(TypeId::of::<Ticket>(), &None);
    assert_eq!(vec!["hello one", "hello two", "something else"], titles(&left));
    assert_eq!(vec![ticket(1, "hello one"), ticket(2, "hello two"), ticket(5, "something else")], left);
}
