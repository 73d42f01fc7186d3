use vstd::prelude::*;

verus! {

/// One annotation occurrence found in a source file.
pub struct TodoItem {
    pub title: String,
    pub category: String,
    pub path: String,
    pub line: usize,
    pub done: bool,
}

/// The mathematical value of a [`TodoItem`].
pub struct ItemView {
    pub title: Seq<char>,
    pub category: Seq<char>,
    pub path: Seq<char>,
    pub line: usize,
    pub done: bool,
}

impl View for TodoItem {
    type V = ItemView;

    open spec fn view(&self) -> ItemView {
        ItemView {
            title: self.title@,
            category: self.category@,
            path: self.path@,
            line: self.line,
            done: self.done,
        }
    }
}

impl ItemView {
    /// The same annotation with its completion flag replaced.
    pub open spec fn with_done(self, done: bool) -> ItemView {
        ItemView { done, ..self }
    }
}

impl TodoItem {
    pub fn new(title: String, category: String, path: String, line: usize, done: bool) -> (r:
        TodoItem)
        ensures
            r@ == (ItemView { title: title@, category: category@, path: path@, line, done }),
    {
        TodoItem { title, category, path, line, done }
    }

    /// A field-by-field copy.
    pub fn duplicate(&self) -> (r: TodoItem)
        ensures
            r@ == self@,
    {
        TodoItem {
            title: self.title.clone(),
            category: self.category.clone(),
            path: self.path.clone(),
            line: self.line,
            done: self.done,
        }
    }
}

} // verus!
