use mrdm::item::TodoItem;
use mrdm::reconcile::{answer_is, listing_merge, plan_reconciliation, resolve_deleted, resolve_resurrected};
use mrdm::store::TodoList;

fn item(title: &str, path: &str, line: usize, done: bool) -> TodoItem {
    TodoItem::new(title.to_string(), "TODO".to_string(), path.to_string(), line, done)
}

fn vanished_store() -> (TodoList, TodoList) {
    let mut prev = TodoList::new();
    prev.upsert(0, item("x", "a", 3, false));
    (prev, TodoList::new())
}

#[test]
fn vanished_item_marked_done_on_d() {
    let (prev, curr) = vanished_store();
    let mut plan = plan_reconciliation(&prev, &curr);
    assert_eq!(plan.deleted, vec![0]);
    assert!(plan.resurrected.is_empty());
    resolve_deleted(&mut plan.merged, 0, "d\n");
    let kept = plan.merged.get(0).unwrap();
    assert!(kept.done);
    assert_eq!(kept.title, "x");
    assert_eq!(kept.line, 3);
    assert_eq!(plan.merged.len(), 1);
}

#[test]
fn vanished_item_removed_on_other_answer() {
    let (prev, curr) = vanished_store();
    let mut plan = plan_reconciliation(&prev, &curr);
    resolve_deleted(&mut plan.merged, 0, "\n");
    assert!(plan.merged.get(0).is_none());
    assert_eq!(plan.merged.len(), 0);
}

#[test]
fn answers_are_trimmed_and_case_insensitive() {
    assert!(answer_is("  D \n", "d"));
    assert!(answer_is("u", "u"));
    assert!(!answer_is("dd", "d"));
    assert!(!answer_is("", "d"));
}

fn returned_store() -> (TodoList, TodoList) {
    let mut prev = TodoList::new();
    prev.upsert(1, item("old title", "a", 3, true));
    let mut curr = TodoList::new();
    curr.upsert(1, item("new title", "b", 8, false));
    (prev, curr)
}

#[test]
fn returned_item_reopened_on_u() {
    let (prev, curr) = returned_store();
    let mut plan = plan_reconciliation(&prev, &curr);
    assert_eq!(plan.resurrected, vec![1]);
    assert!(plan.deleted.is_empty());
    assert!(matches!(resolve_resurrected(&mut plan.merged, 1, "U"), Ok(None)));
    let it = plan.merged.get(1).unwrap();
    assert!(!it.done);
    assert_eq!(it.title, "new title");
    assert_eq!(plan.merged.len(), 1);
}

#[test]
fn returned_item_copied_on_other_answer() {
    let (prev, curr) = returned_store();
    let mut plan = plan_reconciliation(&prev, &curr);
    let fresh = match resolve_resurrected(&mut plan.merged, 1, "") {
        Ok(Some(f)) => f,
        _ => panic!("expected a new entry"),
    };
    assert_eq!(fresh, 2);
    let kept = plan.merged.get(1).unwrap();
    assert!(kept.done);
    let copy = plan.merged.get(fresh).unwrap();
    assert!(!copy.done);
    assert_eq!(copy.title, kept.title);
    assert_eq!(copy.category, kept.category);
    assert_eq!(copy.path, kept.path);
    assert_eq!(copy.line, kept.line);
    assert_eq!(plan.merged.len(), 2);
}

#[test]
fn merge_prefers_the_fresh_scan() {
    let mut prev = TodoList::new();
    prev.upsert(1, item("a", "p", 1, false));
    prev.upsert(2, item("b", "p", 2, true));
    prev.upsert(5, item("c", "p", 3, false));
    let mut curr = TodoList::new();
    curr.upsert(1, item("a2", "q", 10, false));
    curr.upsert(7, item("d", "q", 11, false));
    let plan = plan_reconciliation(&prev, &curr);
    assert_eq!(plan.deleted, vec![5]);
    assert!(plan.resurrected.is_empty());
    let ids: Vec<u64> = plan.merged.entries.iter().map(|e| e.id).collect();
    assert_eq!(ids, vec![1, 2, 5, 7]);
    assert_eq!(plan.merged.get(1).unwrap().title, "a2");
    assert!(plan.merged.get(2).unwrap().done);
}

#[test]
fn listing_keeps_done_and_vanished_entries() {
    let mut prev = TodoList::new();
    prev.upsert(1, item("done before", "p", 1, true));
    prev.upsert(2, item("open before", "p", 2, false));
    prev.upsert(3, item("gone", "p", 3, false));
    let mut curr = TodoList::new();
    curr.upsert(1, item("done now", "q", 10, false));
    curr.upsert(2, item("open now", "q", 11, false));
    curr.upsert(4, item("new", "q", 12, false));
    let l = listing_merge(&prev, &curr);
    let ids: Vec<u64> = l.entries.iter().map(|e| e.id).collect();
    assert_eq!(ids, vec![1, 2, 3, 4]);
    assert_eq!(l.get(1).unwrap().title, "done before");
    assert!(l.get(1).unwrap().done);
    assert_eq!(l.get(2).unwrap().title, "open now");
    assert_eq!(l.get(3).unwrap().title, "gone");
    assert_eq!(l.get(4).unwrap().title, "new");
}
