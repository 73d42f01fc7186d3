use mrdm::item::TodoItem;
use mrdm::store::TodoList;

fn item(title: &str) -> TodoItem {
    TodoItem::new(title.to_string(), "TODO".to_string(), "p".to_string(), 1, false)
}

#[test]
fn entries_stay_in_ascending_id_order() {
    let mut l = TodoList::new();
    l.upsert(10, item("ten"));
    l.upsert(2, item("two"));
    l.upsert(7, item("seven"));
    l.upsert(2, item("two again"));
    let ids: Vec<u64> = l.entries.iter().map(|e| e.id).collect();
    assert_eq!(ids, vec![2, 7, 10]);
    assert_eq!(l.get(2).unwrap().title, "two again");
    assert_eq!(l.max_id(), Some(10));
    l.remove(7);
    assert_eq!(l.len(), 2);
    assert!(l.get(7).is_none());
}

#[test]
fn empty_list_has_no_max() {
    assert_eq!(TodoList::new().max_id(), None);
}

#[test]
fn keyed_pairs_load_by_numeric_id() {
    let pairs = vec![("3".to_string(), item("c")), ("1".to_string(), item("a"))];
    let l = TodoList::from_keyed(&pairs).unwrap();
    let ids: Vec<u64> = l.entries.iter().map(|e| e.id).collect();
    assert_eq!(ids, vec![1, 3]);
}

#[test]
fn malformed_key_discards_the_store() {
    let pairs = vec![("3".to_string(), item("c")), ("x".to_string(), item("a"))];
    assert!(TodoList::from_keyed(&pairs).is_none());
}

#[test]
fn keys_naming_one_id_discard_the_store() {
    let pairs = vec![("1".to_string(), item("a")), ("01".to_string(), item("b"))];
    assert!(TodoList::from_keyed(&pairs).is_none());
}
