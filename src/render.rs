use vstd::prelude::*;

use crate::item::{ItemView, TodoItem};
use crate::store::TodoList;
use crate::text::{decimal, decimal_text, trim, trimmed_of};

verus! {

/// Where an annotation stands: `(path:line)` for a terminal, or an editor
/// link `[link](path#Lline)` for a file.
pub open spec fn location_text(item: ItemView, to_terminal: bool) -> Seq<char> {
    if to_terminal {
        "("@ + item.path + ":"@ + decimal_text(item.line as nat) + ")"@
    } else {
        "[link]("@ + item.path + "#L"@ + decimal_text(item.line as nat) + ")"@
    }
}

pub open spec fn checkbox(done: bool) -> Seq<char> {
    if done {
        "- [x] "@
    } else {
        "- [ ] "@
    }
}

/// One checklist line: checkbox, category, identifier, trimmed title and location.
pub open spec fn checklist_line(id: u64, item: ItemView, to_terminal: bool) -> Seq<char> {
    checkbox(item.done) + item.category + "("@ + decimal_text(id as nat) + "): "@ + trimmed_of(
        item.title,
    ) + " "@ + location_text(item, to_terminal)
}

/// An annotation as the operator is shown it: category, trimmed title and location.
pub open spec fn item_reference(item: ItemView, to_terminal: bool) -> Seq<char> {
    item.category + ": "@ + trimmed_of(item.title) + " "@ + location_text(item, to_terminal)
}

pub open spec fn deleted_prompt_text(item: ItemView, to_terminal: bool) -> Seq<char> {
    "This todo item was removed from your codebase:\n- [ ] "@ + item_reference(item, to_terminal)
        + "\nDo you want to mark it as done or remove it from the list? (d/r)"@
}

pub open spec fn resurrected_prompt_text(item: ItemView, to_terminal: bool) -> Seq<char> {
    "This todo item was marked as done but is now undone:\n- [x] "@ + item_reference(
        item,
        to_terminal,
    ) + "\nDo you want to mark it as undone or recreate it? (u/r)"@
}

fn location(item: &TodoItem, to_terminal: bool) -> (r: String)
    ensures
        r@ == location_text(item@, to_terminal),
{
    let line = decimal(item.line as u64);
    let mut s = String::new();
    if to_terminal {
        s.append("(");
        s.append(item.path.as_str());
        s.append(":");
    } else {
        s.append("[link](");
        s.append(item.path.as_str());
        s.append("#L");
    }
    s.append(line.as_str());
    s.append(")");
    assert(s@ =~= location_text(item@, to_terminal));
    s
}

fn reference(item: &TodoItem, to_terminal: bool) -> (r: String)
    ensures
        r@ == item_reference(item@, to_terminal),
{
    let mut s = item.category.clone();
    s.append(": ");
    s.append(trim(item.title.as_str()).as_str());
    s.append(" ");
    s.append(location(item, to_terminal).as_str());
    s
}

/// The checklist line of the annotation `item` with identifier `id`.
pub fn format_item(id: u64, item: &TodoItem, to_terminal: bool) -> (r: String)
    ensures
        r@ == checklist_line(id, item@, to_terminal),
{
    let mut s = if item.done {
        String::from_str("- [x] ")
    } else {
        String::from_str("- [ ] ")
    };
    s.append(item.category.as_str());
    s.append("(");
    s.append(decimal(id).as_str());
    s.append("): ");
    s.append(trim(item.title.as_str()).as_str());
    s.append(" ");
    s.append(location(item, to_terminal).as_str());
    s
}

/// The checklist of a list, one line per annotation in ascending identifier order.
pub fn render_checklist(list: &TodoList, to_terminal: bool) -> (r: Vec<String>)
    requires
        list.wf(),
    ensures
        r@.len() == list.entries@.len(),
        forall|i: int|
            0 <= i < r@.len() ==> #[trigger] r@[i]@ == checklist_line(
                list.entries@[i].id,
                list.entries@[i].item@,
                to_terminal,
            ),
{
    let mut r: Vec<String> = Vec::new();
    let mut i: usize = 0;
    while i < list.entries.len()
        invariant
            i <= list.entries@.len(),
            r@.len() == i,
            forall|j: int|
                0 <= j < i ==> #[trigger] r@[j]@ == checklist_line(
                    list.entries@[j].id,
                    list.entries@[j].item@,
                    to_terminal,
                ),
        decreases list.entries@.len() - i,
    {
        let e = &list.entries[i];
        r.push(format_item(e.id, &e.item, to_terminal));
        i = i + 1;
    }
    r
}

/// The question put to the operator about an annotation that left the code.
pub fn deleted_prompt(item: &TodoItem, to_terminal: bool) -> (r: String)
    ensures
        r@ == deleted_prompt_text(item@, to_terminal),
{
    let mut s = String::from_str("This todo item was removed from your codebase:\n- [ ] ");
    s.append(reference(item, to_terminal).as_str());
    s.append("\nDo you want to mark it as done or remove it from the list? (d/r)");
    s
}

/// The question put to the operator about an annotation that came back after being done.
pub fn resurrected_prompt(item: &TodoItem, to_terminal: bool) -> (r: String)
    ensures
        r@ == resurrected_prompt_text(item@, to_terminal),
{
    let mut s = String::from_str("This todo item was marked as done but is now undone:\n- [x] ");
    s.append(reference(item, to_terminal).as_str());
    s.append("\nDo you want to mark it as undone or recreate it? (u/r)");
    s
}

} // verus!
