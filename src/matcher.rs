use vstd::prelude::*;

use regex::Regex;

use crate::text::joined_with;

verus! {

#[verifier::external_type_specification]
#[verifier::external_body]
pub struct ExRegex(Regex);

#[verifier::external_type_specification]
#[verifier::external_body]
pub struct ExRegexError(regex::Error);

/// Text of the rule up to the category alternatives: a prefix free of
/// unbalanced double quotes, then a line comment marker.
pub const RULE_HEAD: &'static str = r#"^(?<before>[^"]*("[^"]*"[^"]*)*)//\s*(?<category>"#;

/// Text of the rule after the category alternatives: an optional
/// parenthesised decimal id, a colon, and the title.
pub const RULE_TAIL: &'static str = r#")(\((?<id>\d+)\))?:\s*(?<title>.*)"#;

/// The text of the matching rule for a list of categories.
pub open spec fn rule_text(cats: Seq<Seq<char>>) -> Seq<char> {
    RULE_HEAD@ + joined_with(cats, '|') + RULE_TAIL@
}

/// Whether the regex engine accepts a rule text.
pub uninterp spec fn rule_compiles(rule: Seq<char>) -> bool;

/// The groups `before`, `category`, `id` and `title` of the first match of a
/// rule in a line, each present only where it took part in the match, and the
/// line up to the end of the `category` group.
pub uninterp spec fn rule_captures(rule: Seq<char>, line: Seq<char>) -> Option<
    (Option<Seq<char>>, Option<Seq<char>>, Option<Seq<char>>, Option<Seq<char>>, Option<Seq<char>>),
>;

/// An annotation recognised on one line.
pub struct Annotation {
    /// Everything before the comment marker.
    pub before: String,
    pub category: String,
    /// The identifier text, where the line carries one.
    pub id: Option<String>,
    pub title: String,
    /// The line up to the end of the category.
    pub head: String,
}

pub struct AnnotationView {
    pub before: Seq<char>,
    pub category: Seq<char>,
    pub id: Option<Seq<char>>,
    pub title: Seq<char>,
    pub head: Seq<char>,
}

impl View for Annotation {
    type V = AnnotationView;

    open spec fn view(&self) -> AnnotationView {
        AnnotationView {
            before: self.before@,
            category: self.category@,
            id: match self.id {
                Some(t) => Some(t@),
                None => None,
            },
            title: self.title@,
            head: self.head@,
        }
    }
}

pub open spec fn opt_text(o: Option<String>) -> Option<Seq<char>> {
    match o {
        Some(t) => Some(t@),
        None => None,
    }
}

pub open spec fn groups_view(
    g: Option<(Option<String>, Option<String>, Option<String>, Option<String>, Option<String>)>,
) -> Option<
    (Option<Seq<char>>, Option<Seq<char>>, Option<Seq<char>>, Option<Seq<char>>, Option<Seq<char>>),
> {
    match g {
        Some((b, c, i, t, h)) => Some(
            (opt_text(b), opt_text(c), opt_text(i), opt_text(t), opt_text(h)),
        ),
        None => None,
    }
}

/// The annotation that a match stands for: one whose prefix, category and
/// title all took part.
pub open spec fn annotation_of(
    g: Option<
        (
            Option<Seq<char>>,
            Option<Seq<char>>,
            Option<Seq<char>>,
            Option<Seq<char>>,
            Option<Seq<char>>,
        ),
    >,
) -> Option<AnnotationView> {
    match g {
        Some((Some(b), Some(c), i, Some(t), Some(h))) => Some(
            AnnotationView { before: b, category: c, id: i, title: t, head: h },
        ),
        _ => None,
    }
}

/// Why a matching rule could not be built.
pub enum ConfigError {
    /// No non-empty category was given.
    NoCategories,
    /// The regex engine refused the rule text.
    InvalidRule { rule: String },
}

/// The compiled rule that recognises annotations of a set of categories.
pub struct Matcher {
    rule: Regex,
    text: String,
}

impl Matcher {
    /// The rule text that the matcher was compiled from.
    pub closed spec fn rule(&self) -> Seq<char> {
        self.text@
    }

    pub fn rule_source(&self) -> (r: &String)
        ensures
            r@ == self.rule(),
    {
        &self.text
    }

    /// The annotation on `line`, if it holds one.
    pub fn match_line(&self, line: &str) -> (r: Option<Annotation>)
        ensures
            match r {
                Some(a) => annotation_of(rule_captures(self.rule(), line@)) == Some(a@)
                    && a.head@.len() <= line@.len() && line@.take(a.head@.len() as int)
                    == a.head@,
                None => annotation_of(rule_captures(self.rule(), line@)) is None,
            },
    {
        match capture(self, line) {
            Some((Some(before), Some(category), id, Some(title), Some(head))) => {
                Some(Annotation { before, category, id, title, head })
            },
            _ => None,
        }
    }
}

/// Relies on `regex::Regex::new`: whether it accepts a pattern depends on the
/// pattern's text alone.
#[verifier::external_body]
fn compile(rule: &str) -> (r: Result<Regex, regex::Error>)
    ensures
        r is Ok <==> rule_compiles(rule@),
{
    Regex::new(rule)
}

/// Relies on `regex::Regex::captures`, `regex::Captures::name` and
/// `regex::Match::end`: the named groups of the first match, and the line up
/// to the byte offset where the category group ends, which is a prefix of the
/// line. A matcher's rule is always compiled from its text.
#[verifier::external_body]
fn capture(m: &Matcher, line: &str) -> (r: Option<
    (Option<String>, Option<String>, Option<String>, Option<String>, Option<String>),
>)
    ensures
        groups_view(r) == rule_captures(m.rule(), line@),
        r matches Some(g) ==> (g.4 matches Some(h) ==> h@.len() <= line@.len() && line@.take(
            h@.len() as int,
        ) == h@),
{
    let c = m.rule.captures(line)?;
    let before = c.name("before").map(|g| g.as_str().to_string());
    let category = c.name("category").map(|g| g.as_str().to_string());
    let id = c.name("id").map(|g| g.as_str().to_string());
    let title = c.name("title").map(|g| g.as_str().to_string());
    let head = c.name("category").map(|g| line[..g.end()].to_string());
    Some((before, category, id, title, head))
}

/// At least one category is a non-empty text.
pub open spec fn names_a_category(patterns: Seq<&str>) -> bool {
    exists|i: int| 0 <= i < patterns.len() && (#[trigger] patterns[i])@.len() > 0
}

fn has_category(patterns: &Vec<&str>) -> (r: bool)
    ensures
        r == names_a_category(patterns@),
{
    let mut i: usize = 0;
    while i < patterns.len()
        invariant
            i <= patterns@.len(),
            forall|j: int| 0 <= j < i ==> (#[trigger] patterns@[j])@.len() == 0,
        decreases patterns@.len() - i,
    {
        if patterns[i].unicode_len() > 0 {
            return true;
        }
        i = i + 1;
    }
    false
}

/// Builds the matcher for a list of categories of which at least one is
/// non-empty; each category is taken as a regex alternative.
pub fn create_regex(patterns: Vec<&str>) -> (r: Result<Matcher, ConfigError>)
    ensures
        !names_a_category(patterns@) ==> r is Err && r->Err_0 is NoCategories,
        names_a_category(patterns@) ==> match r {
            Ok(m) => rule_compiles(rule_text(patterns@.map_values(|p: &str| p@)))
                && m.rule() == rule_text(patterns@.map_values(|p: &str| p@)),
            Err(ConfigError::InvalidRule { rule }) => !rule_compiles(
                rule_text(patterns@.map_values(|p: &str| p@)),
            ) && rule@ == rule_text(patterns@.map_values(|p: &str| p@)),
            Err(ConfigError::NoCategories) => false,
        },
{
    if !has_category(&patterns) {
        return Err(ConfigError::NoCategories);
    }
    let ghost cats = patterns@.map_values(|p: &str| p@);
    let mut text = String::from_str(RULE_HEAD);
    let mut i: usize = 0;
    while i < patterns.len()
        invariant
            cats == patterns@.map_values(|p: &str| p@),
            i <= patterns@.len(),
            text@ == RULE_HEAD@ + joined_with(cats.subrange(0, i as int), '|'),
        decreases patterns@.len() - i,
    {
        let ghost before = text@;
        if i > 0 {
            text.append("|");
            proof {
                reveal_strlit("|");
            }
        }
        text.append(patterns[i]);
        proof {
            let prev = cats.subrange(0, i as int);
            let next = cats.subrange(0, i + 1);
            assert(next.drop_last() =~= prev);
            assert(next.last() == patterns@[i as int]@);
            if i == 0 {
                assert(joined_with(prev, '|') =~= Seq::<char>::empty());
                assert(text@ =~= RULE_HEAD@ + joined_with(next, '|'));
            } else {
                assert(text@ =~= RULE_HEAD@ + joined_with(next, '|'));
            }
        }
        i = i + 1;
    }
    text.append(RULE_TAIL);
    proof {
        assert(cats.subrange(0, patterns@.len() as int) =~= cats);
    }
    match compile(text.as_str()) {
        Ok(rule) => Ok(Matcher { rule, text }),
        Err(_) => Err(ConfigError::InvalidRule { rule: text }),
    }
}

} // verus!
