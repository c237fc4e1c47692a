use mock_store::{Error, Store};
use modql::filter::{FilterGroups, FilterNode};
use serde_json::Value;
use std::any::TypeId;

const TICKET_TITLES: [&str; 5] = ["hello one", "hello two", "byebye all", "byebye all", "someting else"];

const PROJECT_NAMES: [&str; 3] = ["project AAA", "project BBB", "project ccc"];

struct Ticket;

struct Project;

fn ticket(id: u64, title: &str) -> Value {
    let mut m = serde_json::Map::new();
    m.insert("id".to_string(), Value::from(id));
    m.insert("title".to_string(), Value::from(title));
    Value::Object(m)
}

fn project(id: u64, name: &str) -> Value {
    let mut m = serde_json::Map::new();
    m.insert("id".to_string(), Value::from(id));
    m.insert("name".to_string(), Value::from(name));
    Value::Object(m)
}

fn title(v: &Value) -> &str {
    v["title"].as_str().unwrap()
}

fn id(v: &Value) -> u64 {
    v["id"].as_u64().unwrap()
}

fn groups(node: FilterNode) -> FilterGroups {
    FilterGroups::from(node)
}

fn seed_store() -> Store {
    let mut store = Store::new();

    let mut id_seq: u64 = 100;
    for t in TICKET_TITLES {
        store.insert(TypeId::of::<Ticket>(), ticket(id_seq, t));
        id_seq += 1;
    }

    let mut id_seq: u64 = 100;
    for name in PROJECT_NAMES {
        store.insert(TypeId::of::<Project>(), project(id_seq, name));
        id_seq += 1;
    }

    store
}

#[test]
fn test_crud_create_one() {
    let mut store = Store::new();

    store.insert(TypeId::of::<Ticket>(), ticket(1, "hello one"));

    let tickets = store.list(TypeId::of::<Ticket>(), &None);

    assert_eq!("hello one", title(&tickets[0]));
}

#[test]
fn test_crud_create_many_with_seq() {
    let mut store = Store::new();

    let n = store.seq_next(TypeId::of::<Ticket>());
    store.insert(TypeId::of::<Ticket>(), ticket(n, "T-ONE"));
    let n = store.seq_next(TypeId::of::<Ticket>());
    store.insert(TypeId::of::<Ticket>(), ticket(n, "T-TWO"));

    let tickets = store.list(TypeId::of::<Ticket>(), &None);

    assert_eq!(1, id(&tickets[0]));
    assert_eq!("T-ONE", title(&tickets[0]));

    assert_eq!(2, id(&tickets[1]));
    assert_eq!("T-TWO", title(&tickets[1]));
}

#[test]
fn test_crud_delete_one() {
    let mut store = seed_store();

    let count = store.delete(TypeId::of::<Ticket>(), &groups(FilterNode::from(("id", 101)))).unwrap();
    assert_eq!(1, count);

    let count = store.list(TypeId::of::<Ticket>(), &None);
    assert_eq!(TICKET_TITLES.len() - 1, count.len());
}

#[test]
fn test_crud_list_all() {
    let store = seed_store();

    let count = store.list(TypeId::of::<Ticket>(), &None);
    assert_eq!(TICKET_TITLES.len(), count.len());

    let count = store.list(TypeId::of::<Project>(), &None);
    assert_eq!(PROJECT_NAMES.len(), count.len());
}

#[test]
fn test_crud_get_simple() {
    let store = seed_store();

    let filter: FilterNode = ("id", 100).into();
    let ticket = store.first(TypeId::of::<Ticket>(), &Some(groups(filter))).expect("Should have found ticket for #100");

    assert_eq!(100, id(&ticket));
    assert_eq!(TICKET_TITLES[0], title(&ticket));
}

#[test]
fn test_crud_list_filter_byebye() {
    let store = seed_store();

    let filter: FilterNode = ("title", "byebye all").into();
    let count = store.list(TypeId::of::<Ticket>(), &Some(groups(filter)));
    assert_eq!(2, count.len());
}

fn retitle(v: &Value) -> Result<Value, Error> {
    let mut t = v.clone();
    t["title"] = Value::from("heyhey");
    Ok(t)
}

#[test]
fn test_crud_list_update_byebye() {
    let mut store = seed_store();

    let filter: FilterNode = ("title", "byebye all").into();
    let count = store.update(TypeId::of::<Ticket>(), &groups(filter), retitle).unwrap();
    assert_eq!(2, count);

    // 'byebye all' should be 0
    let count = store.list(TypeId::of::<Ticket>(), &Some(groups(FilterNode::from(("title", "byebye all")))));
    assert_eq!(0, count.len());

    // 'heyhey' should be 2
    let count = store.list(TypeId::of::<Ticket>(), &Some(groups(FilterNode::from(("title", "heyhey")))));
    assert_eq!(2, count.len());
}
