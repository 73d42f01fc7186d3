use mrdm::config::CliConfig;
use mrdm::item::TodoItem;
use mrdm::render::{deleted_prompt, format_item, render_checklist, resurrected_prompt};
use mrdm::store::TodoList;

fn item(done: bool) -> TodoItem {
    TodoItem::new("  fix it  ".to_string(), "FIXME".to_string(), "src/a.rs".to_string(), 12, done)
}

#[test]
fn terminal_line_uses_path_and_line() {
    assert_eq!(format_item(3, &item(false), true), "- [ ] FIXME(3): fix it (src/a.rs:12)");
}

#[test]
fn file_line_uses_editor_link() {
    assert_eq!(format_item(10, &item(true), false), "- [x] FIXME(10): fix it [link](src/a.rs#L12)");
}

#[test]
fn checklist_is_in_numeric_id_order() {
    let mut l = TodoList::new();
    l.upsert(10, item(false));
    l.upsert(2, item(true));
    let lines = render_checklist(&l, true);
    assert_eq!(
        lines,
        vec![
            "- [x] FIXME(2): fix it (src/a.rs:12)".to_string(),
            "- [ ] FIXME(10): fix it (src/a.rs:12)".to_string(),
        ]
    );
}

#[test]
fn prompts_describe_the_item() {
    assert_eq!(
        deleted_prompt(&item(false), true),
        "This todo item was removed from your codebase:\n- [ ] FIXME: fix it (src/a.rs:12)\nDo you want to mark it as done or remove it from the list? (d/r)"
    );
    assert_eq!(
        resurrected_prompt(&item(true), false),
        "This todo item was marked as done but is now undone:\n- [x] FIXME: fix it [link](src/a.rs#L12)\nDo you want to mark it as undone or recreate it? (u/r)"
    );
}

#[test]
fn default_config() {
    let c = CliConfig::default();
    assert_eq!(c.patterns, vec!["TODO".to_string()]);
    assert_eq!(c.globs, vec!["src/**/*".to_string()]);
    assert_eq!(c.out, None);
    assert_eq!(c.categories(None), vec!["TODO".to_string()]);
    assert_eq!(c.categories(Some("HACK".to_string())), vec!["HACK".to_string()]);
    assert_eq!(
        c.categories(Some("TODO,HACK,FIXME".to_string())),
        vec!["TODO".to_string(), "HACK".to_string(), "FIXME".to_string()]
    );
    assert_eq!(c.targets(Some("x.rs".to_string())), vec!["x.rs".to_string()]);
    assert_eq!(c.targets(None), vec!["src/**/*".to_string()]);
    assert_eq!(c.output_target(None), None);
    assert_eq!(c.output_target(Some("out.md".to_string())), Some("out.md".to_string()));
}

#[test]
fn title_trim_covers_unicode_white_space() {
    let it = TodoItem::new(
        "\u{3000}\t wide \u{a0}\n".to_string(),
        "TODO".to_string(),
        "p".to_string(),
        1,
        false,
    );
    assert_eq!(format_item(1, &it, true), "- [ ] TODO(1): wide (p:1)");
    let kept = TodoItem::new("\u{200b}x".to_string(), "TODO".to_string(), "p".to_string(), 1, false);
    assert_eq!(format_item(1, &kept, true), "- [ ] TODO(1): \u{200b}x (p:1)");
}
