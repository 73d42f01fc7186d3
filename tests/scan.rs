use mrdm::matcher::{create_regex, Matcher};
use mrdm::scan::{scan_lines, FileScan, IdAllocator, ScanError};
use mrdm::store::TodoList;
use mrdm::item::TodoItem;

fn matcher_for(categories: Vec<&str>) -> Matcher {
    match create_regex(categories) {
        Ok(m) => m,
        Err(_) => panic!("rule did not compile"),
    }
}

fn lines(text: &[&str]) -> Vec<String> {
    text.iter().map(|l| l.to_string()).collect()
}

fn scan(ls: &Vec<String>, path: &str, m: &Matcher, alloc: &mut IdAllocator) -> FileScan {
    match scan_lines(ls, path, m, alloc) {
        Ok(fs) => fs,
        Err(_) => panic!("scan failed"),
    }
}

#[test]
fn unmarked_annotations_get_ids_written_in() {
    let m = matcher_for(vec!["TODO", "FIXME"]);
    let ls = lines(&["fn main() {", "    // TODO: first", "    x(); // FIXME:  second", "}"]);
    let mut alloc = IdAllocator::starting_at(3);
    let fs = scan(&ls, "src/a.rs", &m, &mut alloc);
    assert_eq!(
        fs.lines,
        lines(&["fn main() {", "    // TODO(3): first", "    x(); // FIXME(4):  second", "}"])
    );
    assert_eq!(alloc.next, 5);
    assert_eq!(fs.found.len(), 2);
    assert_eq!(fs.found[0].id, 3);
    assert_eq!(fs.found[0].item.title, "first");
    assert_eq!(fs.found[0].item.category, "TODO");
    assert_eq!(fs.found[0].item.path, "src/a.rs");
    assert_eq!(fs.found[0].item.line, 2);
    assert!(!fs.found[0].item.done);
    assert_eq!(fs.found[1].id, 4);
    assert_eq!(fs.found[1].item.category, "FIXME");
    assert_eq!(fs.found[1].item.line, 3);
}

#[test]
fn marked_annotation_is_kept_and_recorded() {
    let m = matcher_for(vec!["TODO"]);
    let ls = lines(&["// TODO(17): keep me"]);
    let mut alloc = IdAllocator::starting_at(0);
    let fs = scan(&ls, "b.rs", &m, &mut alloc);
    assert_eq!(fs.lines, ls);
    assert_eq!(alloc.next, 0);
    assert_eq!(fs.found[0].id, 17);
    assert_eq!(fs.found[0].item.title, "keep me");
}

#[test]
fn second_scan_assigns_nothing_and_keeps_the_file() {
    let m = matcher_for(vec!["TODO", "FIXME"]);
    let ls = lines(&["// TODO: a", "let s = \"// TODO: not me\";", "y(); // FIXME: b", "// TODO(9): c"]);
    let mut alloc = IdAllocator::starting_at(0);
    let first = scan(&ls, "c.rs", &m, &mut alloc);
    assert_eq!(alloc.next, 2);
    let second = scan(&first.lines, "c.rs", &m, &mut alloc);
    assert_eq!(alloc.next, 2);
    assert_eq!(second.lines, first.lines);
    let ids: Vec<u64> = second.found.iter().map(|e| e.id).collect();
    assert_eq!(ids, vec![0, 1, 9]);
}

#[test]
fn files_sharing_an_allocator_get_consecutive_ids() {
    let m = matcher_for(vec!["TODO"]);
    let mut prev = TodoList::new();
    prev.upsert(4, TodoItem::new("x".to_string(), "TODO".to_string(), "a".to_string(), 1, false));
    prev.upsert(2, TodoItem::new("y".to_string(), "TODO".to_string(), "a".to_string(), 2, true));
    let mut alloc = IdAllocator::after(&prev);
    assert_eq!(alloc.next, 5);
    let a = scan(&lines(&["// TODO: one", "// TODO: two"]), "a.rs", &m, &mut alloc);
    let b = scan(&lines(&["// TODO: three"]), "b.rs", &m, &mut alloc);
    let mut ids: Vec<u64> = a.found.iter().chain(b.found.iter()).map(|e| e.id).collect();
    ids.sort();
    assert_eq!(ids, vec![5, 6, 7]);
    assert_eq!(alloc.next, 8);
}

#[test]
fn fresh_store_allocates_from_zero() {
    let alloc = IdAllocator::after(&TodoList::new());
    assert_eq!(alloc.next, 0);
}

#[test]
fn unreadable_id_is_reported_with_its_line() {
    let m = matcher_for(vec!["TODO"]);
    let ls = lines(&["// TODO: fine", "// TODO(99999999999999999999): too big"]);
    let mut alloc = IdAllocator::starting_at(0);
    match scan_lines(&ls, "d.rs", &m, &mut alloc) {
        Err(ScanError::UnreadableId { line }) => assert_eq!(line, 2),
        _ => panic!("expected an unreadable id"),
    }
    assert_eq!(alloc.next, 0);
}

#[test]
fn exhausted_allocator_is_reported() {
    let m = matcher_for(vec!["TODO"]);
    let ls = lines(&["// TODO: one"]);
    let mut alloc = IdAllocator::starting_at(u64::MAX);
    assert!(matches!(scan_lines(&ls, "e.rs", &m, &mut alloc), Err(ScanError::IdsExhausted)));
    assert_eq!(alloc.next, u64::MAX);
}

#[test]
fn rewrite_only_inserts_the_id() {
    let m = matcher_for(vec!["TODO"]);
    let ls = lines(&["//TODO:x", "a; //   TODO:   spaced  ", "é // TODO: ü"]);
    let mut alloc = IdAllocator::starting_at(7);
    let fs = scan(&ls, "f.rs", &m, &mut alloc);
    assert_eq!(
        fs.lines,
        lines(&["//TODO(7):x", "a; //   TODO(8):   spaced  ", "é // TODO(9): ü"])
    );
    assert_eq!(fs.found[1].item.title, "spaced  ");
}
