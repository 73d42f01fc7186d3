use vstd::prelude::*;

use crate::item::{ItemView, TodoItem};
use crate::matcher::{annotation_of, rule_captures, Annotation, AnnotationView, Matcher};
use crate::store::{entries_view, Entry, TodoList};
use crate::text::{decimal, decimal_text, id_of_text, lemma_decimal_reads_back, parse_id, texts};

verus! {

/// The annotation that a rule finds on a line.
pub open spec fn annotation_on(rule: Seq<char>, line: Seq<char>) -> Option<AnnotationView> {
    annotation_of(rule_captures(rule, line))
}

/// The line holds an annotation without an identifier.
pub open spec fn is_unmarked(rule: Seq<char>, line: Seq<char>) -> bool {
    annotation_on(rule, line) matches Some(a) && a.id is None
}

/// The line holds an annotation whose identifier text does not denote a 64-bit number.
pub open spec fn has_bad_id(rule: Seq<char>, line: Seq<char>) -> bool {
    annotation_on(rule, line) matches Some(a) && (a.id matches Some(t) && id_of_text(t) is None)
}

pub open spec fn unmarked_count(rule: Seq<char>, lines: Seq<Seq<char>>) -> nat
    decreases lines.len(),
{
    if lines.len() == 0 {
        0
    } else {
        unmarked_count(rule, lines.drop_last()) + if is_unmarked(rule, lines.last()) {
            1nat
        } else {
            0nat
        }
    }
}

/// The identifier handed to the unmarked annotation on line `i`.
pub open spec fn new_id(rule: Seq<char>, lines: Seq<Seq<char>>, i: int, base: nat) -> nat {
    base + unmarked_count(rule, lines.take(i))
}

/// The identifier of the annotation on line `i`: its own, or a new one.
pub open spec fn id_on(rule: Seq<char>, lines: Seq<Seq<char>>, i: int, base: nat) -> nat {
    match annotation_on(rule, lines[i]) {
        Some(a) => match a.id {
            Some(t) => match id_of_text(t) {
                Some(n) => n as nat,
                None => 0,
            },
            None => new_id(rule, lines, i, base),
        },
        None => 0,
    }
}

/// A line with `(id)` inserted at position `k`, the rest kept as it is.
pub open spec fn marked_text(line: Seq<char>, k: int, id: nat) -> Seq<char> {
    line.take(k) + "("@ + decimal_text(id) + ")"@ + line.skip(k)
}

/// What line `i` becomes when the file is written back.
pub open spec fn output_line(rule: Seq<char>, lines: Seq<Seq<char>>, i: int, base: nat) -> Seq<
    char,
> {
    if is_unmarked(rule, lines[i]) {
        marked_text(
            lines[i],
            annotation_on(rule, lines[i])->Some_0.head.len() as int,
            new_id(rule, lines, i, base),
        )
    } else {
        lines[i]
    }
}

/// The annotations of a file in line order, with their identifiers.
pub open spec fn found_entries(rule: Seq<char>, lines: Seq<Seq<char>>, path: Seq<char>, base: nat) -> Seq<
    (u64, ItemView),
>
    decreases lines.len(),
{
    if lines.len() == 0 {
        Seq::empty()
    } else {
        let i = lines.len() - 1;
        let prev = found_entries(rule, lines.drop_last(), path, base);
        match annotation_on(rule, lines[i]) {
            Some(a) => prev.push(
                (
                    id_on(rule, lines, i, base) as u64,
                    ItemView {
                        title: a.title,
                        category: a.category,
                        path,
                        line: lines.len() as usize,
                        done: false,
                    },
                ),
            ),
            None => prev,
        }
    }
}

/// Hands out identifiers in increasing order, one at a time.
pub struct IdAllocator {
    /// The identifier that the next allocation hands out.
    pub next: u64,
}

/// The allocator's starting point for a store: one past its highest identifier,
/// or zero for an empty store. It stops at the largest 64-bit value, which is
/// never handed out.
pub open spec fn first_free(m: Map<u64, ItemView>) -> u64 {
    if m.dom().is_empty() {
        0
    } else {
        let h = choose|h: u64| m.contains_key(h) && forall|k: u64| m.contains_key(k) ==> k <= h;
        if h < u64::MAX {
            (h + 1) as u64
        } else {
            u64::MAX
        }
    }
}

impl IdAllocator {
    pub fn starting_at(next: u64) -> (r: IdAllocator)
        ensures
            r.next == next,
    {
        IdAllocator { next }
    }

    /// An allocator that starts past every identifier of `list`.
    pub fn after(list: &TodoList) -> (r: IdAllocator)
        requires
            list.wf(),
        ensures
            r.next == first_free(list@),
            forall|k: u64| list@.contains_key(k) ==> k < r.next || r.next == u64::MAX,
    {
        match list.max_id() {
            None => IdAllocator { next: 0 },
            Some(h) => {
                proof {
                    let c = choose|c: u64|
                        list@.contains_key(c) && forall|k: u64| list@.contains_key(k) ==> k <= c;
                    assert(list@.contains_key(h) && forall|k: u64|
                        list@.contains_key(k) ==> k <= h);
                    assert(c <= h && h <= c);
                    assert(list@.dom().contains(h));
                }
                if h < u64::MAX {
                    IdAllocator { next: h + 1 }
                } else {
                    IdAllocator { next: u64::MAX }
                }
            },
        }
    }
}

/// Why a file's scan failed.
pub enum ScanError {
    /// The annotation on this 1-based line carries an identifier that is not a 64-bit number.
    UnreadableId { line: usize },
    /// The file needs more new identifiers than remain below the largest 64-bit value.
    IdsExhausted,
}

/// A scanned file: its lines as they are to be written back, and its annotations.
pub struct FileScan {
    pub lines: Vec<String>,
    pub found: Vec<Entry>,
}

proof fn lemma_count_prefix(rule: Seq<char>, lines: Seq<Seq<char>>, k: int)
    requires
        0 <= k <= lines.len(),
    ensures
        unmarked_count(rule, lines.take(k)) <= unmarked_count(rule, lines),
    decreases lines.len() - k,
{
    if k < lines.len() {
        assert(lines.take(k + 1).drop_last() =~= lines.take(k));
        lemma_count_prefix(rule, lines, k + 1);
    } else {
        assert(lines.take(k) =~= lines);
    }
}

/// The line with an identifier inserted right after the category.
fn mark_line(line: &str, a: &Annotation, id: u64) -> (r: String)
    requires
        a.head@.len() <= line@.len(),
        line@.take(a.head@.len() as int) == a.head@,
    ensures
        r@ == marked_text(line@, a.head@.len() as int, id as nat),
{
    let k = a.head.unicode_len();
    let n = line.unicode_len();
    let mut s = a.head.clone();
    s.append("(");
    s.append(decimal(id).as_str());
    s.append(")");
    s.append(line.substring_char(k, n));
    proof {
        assert(line@.subrange(k as int, n as int) =~= line@.skip(k as int));
    }
    s
}

/// Scans the lines of the file at `path`: every annotation is recorded with
/// its 1-based line, and each one without an identifier gets the next one from
/// `alloc`, written into its line after the category. Other lines are kept as
/// they are. On failure nothing is allocated.
pub fn scan_lines(lines: &Vec<String>, path: &str, matcher: &Matcher, alloc: &mut IdAllocator) -> (r:
    Result<FileScan, ScanError>)
    ensures
        match r {
            Ok(fs) => {
                &&& forall|i: int|
                    0 <= i < lines@.len() ==> !has_bad_id(matcher.rule(), #[trigger] lines@[i]@)
                &&& old(alloc).next + unmarked_count(matcher.rule(), texts(lines@)) <= u64::MAX
                &&& final(alloc).next == old(alloc).next + unmarked_count(
                    matcher.rule(),
                    texts(lines@),
                )
                &&& fs.lines@.len() == lines@.len()
                &&& forall|i: int|
                    0 <= i < lines@.len() ==> #[trigger] fs.lines@[i]@ == output_line(
                        matcher.rule(),
                        texts(lines@),
                        i,
                        old(alloc).next as nat,
                    )
                &&& entries_view(fs.found@) == found_entries(
                    matcher.rule(),
                    texts(lines@),
                    path@,
                    old(alloc).next as nat,
                )
            },
            Err(ScanError::UnreadableId { line }) => {
                &&& 1 <= line <= lines@.len()
                &&& has_bad_id(matcher.rule(), lines@[line - 1]@)
                &&& forall|i: int|
                    0 <= i < line - 1 ==> !has_bad_id(matcher.rule(), #[trigger] lines@[i]@)
                &&& *final(alloc) == *old(alloc)
            },
            Err(ScanError::IdsExhausted) => {
                &&& forall|i: int|
                    0 <= i < lines@.len() ==> !has_bad_id(matcher.rule(), #[trigger] lines@[i]@)
                &&& old(alloc).next + unmarked_count(matcher.rule(), texts(lines@)) > u64::MAX
                &&& *final(alloc) == *old(alloc)
            },
        },
{
    let ghost rule = matcher.rule();
    let ghost ls = texts(lines@);
    let ghost base = alloc.next as nat;
    let n = lines.len();
    let mut count: usize = 0;
    let mut i: usize = 0;
    while i < n
        invariant
            n == lines@.len(),
            ls == texts(lines@),
            rule == matcher.rule(),
            i <= n,
            count <= i,
            count == unmarked_count(rule, ls.take(i as int)),
            forall|j: int| 0 <= j < i ==> !has_bad_id(rule, #[trigger] lines@[j]@),
        decreases n - i,
    {
        proof {
            assert(ls.take(i + 1).drop_last() =~= ls.take(i as int));
            assert(ls.take(i + 1).last() == ls[i as int]);
            assert(ls[i as int] == lines@[i as int]@);
        }
        match matcher.match_line(lines[i].as_str()) {
            Some(a) => {
                match a.id {
                    Some(t) => {
                        if parse_id(t.as_str()).is_none() {
                            proof {
                                assert(has_bad_id(rule, lines@[i as int]@));
                            }
                            return Err(ScanError::UnreadableId { line: i + 1 });
                        }
                    },
                    None => {
                        count = count + 1;
                    },
                }
            },
            None => {},
        }
        i = i + 1;
    }
    proof {
        assert(ls.take(n as int) =~= ls);
    }
    if count as u64 > u64::MAX - alloc.next {
        return Err(ScanError::IdsExhausted);
    }
    let mut out: Vec<String> = Vec::new();
    let mut found: Vec<Entry> = Vec::new();
    let mut i: usize = 0;
    while i < n
        invariant
            n == lines@.len(),
            ls == texts(lines@),
            rule == matcher.rule(),
            i <= n,
            base + unmarked_count(rule, ls) <= u64::MAX,
            forall|j: int| 0 <= j < n ==> !has_bad_id(rule, #[trigger] lines@[j]@),
            alloc.next == base + unmarked_count(rule, ls.take(i as int)),
            out@.len() == i,
            forall|j: int| 0 <= j < i ==> #[trigger] out@[j]@ == output_line(rule, ls, j, base),
            entries_view(found@) == found_entries(rule, ls.take(i as int), path@, base),
        decreases n - i,
    {
        let ghost pre = ls.take(i as int);
        let ghost cur = ls.take(i + 1);
        proof {
            assert(cur.drop_last() =~= pre);
            assert(cur.take(i as int) =~= pre);
            assert(cur[i as int] == ls[i as int]);
            assert(ls[i as int] == lines@[i as int]@);
            lemma_count_prefix(rule, ls, i + 1);
        }
        let line = i + 1;
        match matcher.match_line(lines[i].as_str()) {
            Some(a) => {
                let marked_id = match &a.id {
                    Some(t) => parse_id(t.as_str()),
                    None => None,
                };
                let id = match marked_id {
                    Some(v) => {
                        out.push(lines[i].clone());
                        v
                    },
                    None => {
                        if a.id.is_some() {
                            proof {
                                assert(has_bad_id(rule, lines@[i as int]@));
                            }
                            return Err(ScanError::UnreadableId { line });
                        }
                        let v = alloc.next;
                        alloc.next = alloc.next + 1;
                        out.push(mark_line(lines[i].as_str(), &a, v));
                        v
                    },
                };
                let item = TodoItem::new(
                    a.title.clone(),
                    a.category.clone(),
                    String::from_str(path),
                    line,
                    false,
                );
                found.push(Entry { id, item });
                proof {
                    assert(entries_view(found@) =~= found_entries(rule, cur, path@, base));
                }
            },
            None => {
                out.push(lines[i].clone());
                proof {
                    assert(entries_view(found@) =~= found_entries(rule, cur, path@, base));
                }
            },
        }
        i = i + 1;
    }
    proof {
        assert(ls.take(n as int) =~= ls);
    }
    Ok(FileScan { lines: out, found })
}

/// The identifiers that a scan from `base` hands to the unmarked annotations of a file.
pub open spec fn new_ids(rule: Seq<char>, lines: Seq<Seq<char>>, base: nat) -> Set<nat> {
    Set::new(
        |k: nat|
            exists|i: int|
                0 <= i < lines.len() && is_unmarked(rule, lines[i]) && k == new_id(
                    rule,
                    lines,
                    i,
                    base,
                ),
    )
}

pub open spec fn id_range(lo: nat, hi: nat) -> Set<nat> {
    Set::new(|k: nat| lo <= k < hi)
}

proof fn lemma_count_monotone(rule: Seq<char>, lines: Seq<Seq<char>>, a: int, b: int)
    requires
        0 <= a <= b <= lines.len(),
    ensures
        unmarked_count(rule, lines.take(a)) <= unmarked_count(rule, lines.take(b)),
{
    assert(lines.take(b).take(a) =~= lines.take(a));
    lemma_count_prefix(rule, lines.take(b), a);
}

/// Within one file, unmarked annotations further down get larger identifiers,
/// and together they get exactly the identifiers from `base` up to `base`
/// plus their number.
pub proof fn lemma_new_ids_consecutive(rule: Seq<char>, lines: Seq<Seq<char>>, base: nat)
    ensures
        new_ids(rule, lines, base) == id_range(base, base + unmarked_count(rule, lines)),
        forall|i: int, j: int|
            0 <= i < j < lines.len() && is_unmarked(rule, lines[i]) ==> #[trigger] new_id(
                rule,
                lines,
                i,
                base,
            ) < #[trigger] new_id(rule, lines, j, base),
    decreases lines.len(),
{
    assert forall|i: int, j: int|
        0 <= i < j < lines.len() && is_unmarked(rule, lines[i]) implies #[trigger] new_id(
        rule,
        lines,
        i,
        base,
    ) < #[trigger] new_id(rule, lines, j, base) by {
        assert(lines.take(i + 1).drop_last() =~= lines.take(i));
        assert(lines.take(i + 1).last() == lines[i]);
        lemma_count_monotone(rule, lines, i + 1, j);
    }
    if lines.len() == 0 {
        assert(new_ids(rule, lines, base) =~= id_range(base, base));
    } else {
        let n = lines.len() - 1;
        let t = lines.drop_last();
        lemma_new_ids_consecutive(rule, t, base);
        let c = unmarked_count(rule, t);
        assert(lines.take(n) =~= t);
        assert forall|i: int| 0 <= i < n implies #[trigger] new_id(rule, lines, i, base) == new_id(
            rule,
            t,
            i,
            base,
        ) && lines[i] == t[i] by {
            assert(t.take(i) =~= lines.take(i));
        }
        assert forall|k: nat| #[trigger]
            new_ids(rule, lines, base).contains(k) <==> id_range(
                base,
                base + unmarked_count(rule, lines),
            ).contains(k) by {
            if new_ids(rule, lines, base).contains(k) {
                let i = choose|i: int|
                    0 <= i < lines.len() && is_unmarked(rule, lines[i]) && k == new_id(
                        rule,
                        lines,
                        i,
                        base,
                    );
                if i < n {
                    assert(new_ids(rule, t, base).contains(k));
                }
            }
            if base <= k < base + unmarked_count(rule, lines) {
                if k < base + c {
                    assert(id_range(base, base + c).contains(k));
                    let i = choose|i: int|
                        0 <= i < t.len() && is_unmarked(rule, t[i]) && k == new_id(
                            rule,
                            t,
                            i,
                            base,
                        );
                    assert(new_id(rule, lines, i, base) == k);
                } else {
                    assert(is_unmarked(rule, lines[n]));
                    assert(new_id(rule, lines, n, base) == k);
                }
            }
        }
        assert(new_ids(rule, lines, base) =~= id_range(base, base + unmarked_count(rule, lines)));
    }
}

/// Unmarked annotations over a list of files.
pub open spec fn total_unmarked(rule: Seq<char>, files: Seq<Seq<Seq<char>>>) -> nat
    decreases files.len(),
{
    if files.len() == 0 {
        0
    } else {
        total_unmarked(rule, files.drop_last()) + unmarked_count(rule, files.last())
    }
}

/// Where the allocator stands when file `j` is scanned, the files being
/// scanned one after another on one allocator that starts at `base`.
pub open spec fn file_base(rule: Seq<char>, files: Seq<Seq<Seq<char>>>, j: int, base: nat) -> nat {
    base + total_unmarked(rule, files.take(j))
}

/// All identifiers handed out over the files.
pub open spec fn all_new_ids(rule: Seq<char>, files: Seq<Seq<Seq<char>>>, base: nat) -> Set<nat>
    decreases files.len(),
{
    if files.len() == 0 {
        Set::empty()
    } else {
        all_new_ids(rule, files.drop_last(), base).union(
            new_ids(rule, files.last(), file_base(rule, files, files.len() - 1, base)),
        )
    }
}

/// Files scanned in any order on one shared allocator that starts at `base`
/// get, together, exactly the identifiers from `base` up to `base` plus the
/// number of unmarked annotations, and no identifier goes to two files.
pub proof fn lemma_shared_allocator_ids(rule: Seq<char>, files: Seq<Seq<Seq<char>>>, base: nat)
    ensures
        all_new_ids(rule, files, base) == id_range(base, base + total_unmarked(rule, files)),
        forall|a: int, b: int, k: nat|
            0 <= a < b < files.len() && #[trigger] new_ids(rule, files[a], file_base(rule, files, a, base)).contains(k)
                ==> !#[trigger] new_ids(rule, files[b], file_base(rule, files, b, base)).contains(k),
    decreases files.len(),
{
    if files.len() == 0 {
        assert(all_new_ids(rule, files, base) =~= id_range(base, base));
    } else {
        let n = files.len() - 1;
        let t = files.drop_last();
        lemma_shared_allocator_ids(rule, t, base);
        assert(files.take(n) =~= t);
        lemma_new_ids_consecutive(rule, files[n], file_base(rule, files, n, base));
        assert(all_new_ids(rule, files, base) =~= id_range(
            base,
            base + total_unmarked(rule, files),
        ));
        assert forall|a: int, b: int, k: nat|
            0 <= a < b < files.len() && #[trigger] new_ids(rule, files[a], file_base(rule, files, a, base)).contains(k)
            implies !#[trigger] new_ids(rule, files[b], file_base(rule, files, b, base)).contains(k) by {
            lemma_new_ids_consecutive(rule, files[a], file_base(rule, files, a, base));
            lemma_new_ids_consecutive(rule, files[b], file_base(rule, files, b, base));
            lemma_total_monotone(rule, files, a + 1, b);
            assert(files.take(a + 1).drop_last() =~= files.take(a));
            assert(files.take(a + 1).last() == files[a]);
        }
    }
}

proof fn lemma_total_monotone(rule: Seq<char>, files: Seq<Seq<Seq<char>>>, a: int, b: int)
    requires
        0 <= a <= b <= files.len(),
    ensures
        total_unmarked(rule, files.take(a)) <= total_unmarked(rule, files.take(b)),
    decreases b - a,
{
    if a < b {
        assert(files.take(b).drop_last() =~= files.take(b - 1));
        lemma_total_monotone(rule, files, a, b - 1);
    }
}

/// A file whose annotations all carry an identifier is written back
/// unchanged, and its scan hands out no identifier.
pub proof fn lemma_marked_file_unchanged(rule: Seq<char>, lines: Seq<Seq<char>>, base: nat)
    requires
        forall|i: int|
            0 <= i < lines.len() ==> !is_unmarked(rule, #[trigger] lines[i]),
    ensures
        unmarked_count(rule, lines) == 0,
        forall|i: int| 0 <= i < lines.len() ==> output_line(rule, lines, i, base) == lines[i],
    decreases lines.len(),
{
    if lines.len() > 0 {
        let t = lines.drop_last();
        assert forall|i: int| 0 <= i < t.len() implies !is_unmarked(rule, #[trigger] t[i]) by {
            assert(t[i] == lines[i]);
        }
        lemma_marked_file_unchanged(rule, t, base);
        assert(!is_unmarked(rule, lines[lines.len() - 1]));
    }
}

/// The lines of a file as a scan from `base` writes them back.
pub open spec fn rewritten(rule: Seq<char>, lines: Seq<Seq<char>>, base: nat) -> Seq<Seq<char>> {
    Seq::new(lines.len(), |i: int| output_line(rule, lines, i, base))
}

/// The rule reads every rewritten line back as the annotation it was made
/// from, now carrying its new identifier. Whether it does is up to the regex
/// engine and the categories: a category that ends the way a longer one with an
/// identifier begins can defeat it.
pub open spec fn rereads_marked(rule: Seq<char>, lines: Seq<Seq<char>>, base: nat) -> bool {
    forall|i: int|
        0 <= i < lines.len() && #[trigger] is_unmarked(rule, lines[i]) ==> annotation_on(
            rule,
            output_line(rule, lines, i, base),
        ) == Some(
            AnnotationView {
                id: Some(decimal_text(new_id(rule, lines, i, base))),
                ..annotation_on(rule, lines[i])->Some_0
            },
        )
}

/// A second scan of a file that the rule reads back as written hands out no
/// identifier, writes every line back unchanged, and records the same
/// annotations under the same identifiers as the first.
pub proof fn lemma_rescan_is_stable(
    rule: Seq<char>,
    lines: Seq<Seq<char>>,
    path: Seq<char>,
    base: nat,
    later: nat,
)
    requires
        rereads_marked(rule, lines, base),
        base + unmarked_count(rule, lines) <= u64::MAX,
    ensures
        unmarked_count(rule, rewritten(rule, lines, base)) == 0,
        forall|i: int|
            0 <= i < lines.len() ==> output_line(rule, rewritten(rule, lines, base), i, later)
                == rewritten(rule, lines, base)[i],
        found_entries(rule, rewritten(rule, lines, base), path, later) == found_entries(
            rule,
            lines,
            path,
            base,
        ),
    decreases lines.len(),
{
    let out = rewritten(rule, lines, base);
    assert forall|i: int| 0 <= i < out.len() implies !is_unmarked(rule, #[trigger] out[i]) by {
        if is_unmarked(rule, lines[i]) {
            assert(out[i] == output_line(rule, lines, i, base));
        }
    }
    lemma_marked_file_unchanged(rule, out, later);
    if lines.len() > 0 {
        let n = lines.len() - 1;
        let t = lines.drop_last();
        assert(lines.take(n) =~= t);
        assert forall|i: int| 0 <= i < t.len() implies #[trigger] output_line(rule, t, i, base)
            == output_line(rule, lines, i, base) && t[i] == lines[i] && new_id(rule, t, i, base)
            == new_id(rule, lines, i, base) by {
            assert(t.take(i) =~= lines.take(i));
        }
        assert(rewritten(rule, t, base) =~= out.drop_last());
        assert(rereads_marked(rule, t, base)) by {
            assert forall|i: int|
                0 <= i < t.len() && #[trigger] is_unmarked(rule, t[i]) implies annotation_on(
                rule,
                output_line(rule, t, i, base),
            ) == Some(
                AnnotationView {
                    id: Some(decimal_text(new_id(rule, t, i, base))),
                    ..annotation_on(rule, t[i])->Some_0
                },
            ) by {
                assert(is_unmarked(rule, lines[i]));
            }
        }
        lemma_rescan_is_stable(rule, t, path, base, later);
        assert(out.drop_last() =~= rewritten(rule, t, base));
        if is_unmarked(rule, lines[n]) {
            assert(new_id(rule, lines, n, base) == base + unmarked_count(rule, t));
            lemma_decimal_reads_back(new_id(rule, lines, n, base));
        }
        assert(out[n] == output_line(rule, lines, n, base));
    }
}

} // verus!
