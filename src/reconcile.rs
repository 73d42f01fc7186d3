use vstd::prelude::*;

use crate::item::ItemView;
use crate::scan::{first_free, IdAllocator};
use crate::store::{
    entries_map, entries_view, ids_ascending, lemma_entry_in_map, lemma_key_in_map,
    lemma_upsert_all_entries, TodoList,
};
use crate::text::{lowercase, lowercase_of, trim, trimmed_of};

verus! {

/// An annotation that was open in the previous list and is no longer found.
pub open spec fn is_deleted(prev: Map<u64, ItemView>, curr: Map<u64, ItemView>, k: u64) -> bool {
    prev.contains_key(k) && !prev[k].done && !curr.contains_key(k)
}

/// An annotation that was done in the previous list and is found again.
pub open spec fn is_resurrected(prev: Map<u64, ItemView>, curr: Map<u64, ItemView>, k: u64) -> bool {
    prev.contains_key(k) && prev[k].done && curr.contains_key(k)
}

pub open spec fn strictly_ascending(s: Seq<u64>) -> bool {
    forall|i: int, j: int| 0 <= i < j < s.len() ==> s[i] < s[j]
}

/// The operator's answer, once trimmed and lowercased, is exactly `letter`.
pub open spec fn answer_means(answer: Seq<char>, letter: Seq<char>) -> bool {
    lowercase_of(trimmed_of(answer)) == letter
}

/// A previous list and a fresh scan brought together: the scan's entries
/// replace the previous ones, and the identifiers that need the operator's
/// decision, in ascending order.
pub struct Plan {
    pub merged: TodoList,
    pub deleted: Vec<u64>,
    pub resurrected: Vec<u64>,
}

/// Why a reconciliation step failed.
pub enum ReconcileError {
    /// No identifier below the largest 64-bit value is left for a new entry.
    IdsExhausted,
}

/// Merges `curr` over `prev` and lists the annotations that vanished while
/// open and those that came back after being done.
pub fn plan_reconciliation(prev: &TodoList, curr: &TodoList) -> (r: Plan)
    requires
        prev.wf(),
        curr.wf(),
    ensures
        r.merged.wf(),
        r.merged@ == prev@.union_prefer_right(curr@),
        strictly_ascending(r.deleted@),
        forall|k: u64| r.deleted@.contains(k) <==> is_deleted(prev@, curr@, k),
        strictly_ascending(r.resurrected@),
        forall|k: u64| r.resurrected@.contains(k) <==> is_resurrected(prev@, curr@, k),
{
    let mut merged = prev.duplicate();
    merged.absorb(&curr.entries);
    proof {
        lemma_upsert_all_entries(prev@, curr.entries@);
    }
    let mut deleted: Vec<u64> = Vec::new();
    let mut resurrected: Vec<u64> = Vec::new();
    let n = prev.entries.len();
    let mut i: usize = 0;
    while i < n
        invariant
            prev.wf(),
            curr.wf(),
            n == prev.entries@.len(),
            i <= n,
            strictly_ascending(deleted@),
            strictly_ascending(resurrected@),
            forall|a: int, j: int|
                0 <= a < deleted@.len() && i <= j < n ==> deleted@[a] < prev.entries@[j].id,
            forall|a: int, j: int|
                0 <= a < resurrected@.len() && i <= j < n ==> resurrected@[a]
                    < prev.entries@[j].id,
            forall|k: u64|
                deleted@.contains(k) <==> (is_deleted(prev@, curr@, k) && exists|j: int|
                    0 <= j < i && prev.entries@[j].id == k),
            forall|k: u64|
                resurrected@.contains(k) <==> (is_resurrected(prev@, curr@, k) && exists|j: int|
                    0 <= j < i && prev.entries@[j].id == k),
        decreases n - i,
    {
        let e = &prev.entries[i];
        let found = curr.position(e.id).is_some();
        proof {
            lemma_entry_in_map(prev.entries@, i as int);
        }
        let ghost d0 = deleted@;
        let ghost r0 = resurrected@;
        if !e.item.done && !found {
            deleted.push(e.id);
        }
        if e.item.done && found {
            resurrected.push(e.id);
        }
        proof {
            if !e.item.done && !found {
                assert(deleted@ == d0.push(e.id));
            } else {
                assert(deleted@ == d0);
            }
            if e.item.done && found {
                assert(resurrected@ == r0.push(e.id));
            } else {
                assert(resurrected@ == r0);
            }
            assert forall|k: u64| deleted@.contains(k) <==> (is_deleted(prev@, curr@, k) && exists|
                j: int,
            | 0 <= j < i + 1 && prev.entries@[j].id == k) by {
                if d0.contains(k) {
                    let j = choose|j: int| 0 <= j < i && prev.entries@[j].id == k;
                    assert(0 <= j < i + 1 && prev.entries@[j].id == k);
                    let a = choose|a: int| 0 <= a < d0.len() && d0[a] == k;
                    assert(deleted@[a] == k);
                }
                if is_deleted(prev@, curr@, k) && exists|j: int|
                    0 <= j < i + 1 && prev.entries@[j].id == k {
                    let j = choose|j: int| 0 <= j < i + 1 && prev.entries@[j].id == k;
                    if j < i {
                        assert(d0.contains(k));
                    } else {
                        assert(deleted@[deleted@.len() - 1] == k);
                    }
                }
                if deleted@.contains(k) && !d0.contains(k) {
                    let a = choose|a: int| 0 <= a < deleted@.len() && deleted@[a] == k;
                    if a < d0.len() {
                        assert(d0[a] == k);
                    }
                    assert(prev.entries@[i as int].id == k);
                }
            }
            assert forall|k: u64| resurrected@.contains(k) <==> (is_resurrected(prev@, curr@, k) && exists|
                j: int,
            | 0 <= j < i + 1 && prev.entries@[j].id == k) by {
                if r0.contains(k) {
                    let j = choose|j: int| 0 <= j < i && prev.entries@[j].id == k;
                    assert(0 <= j < i + 1 && prev.entries@[j].id == k);
                    let a = choose|a: int| 0 <= a < r0.len() && r0[a] == k;
                    assert(resurrected@[a] == k);
                }
                if is_resurrected(prev@, curr@, k) && exists|j: int|
                    0 <= j < i + 1 && prev.entries@[j].id == k {
                    let j = choose|j: int| 0 <= j < i + 1 && prev.entries@[j].id == k;
                    if j < i {
                        assert(r0.contains(k));
                    } else {
                        assert(resurrected@[resurrected@.len() - 1] == k);
                    }
                }
                if resurrected@.contains(k) && !r0.contains(k) {
                    let a = choose|a: int| 0 <= a < resurrected@.len() && resurrected@[a] == k;
                    if a < r0.len() {
                        assert(r0[a] == k);
                    }
                    assert(prev.entries@[i as int].id == k);
                }
            }
        }
        i = i + 1;
    }
    proof {
        assert forall|k: u64| is_deleted(prev@, curr@, k) implies deleted@.contains(k) by {
            lemma_key_in_map(prev.entries@, k);
        }
        assert forall|k: u64| is_resurrected(prev@, curr@, k) implies resurrected@.contains(k) by {
            lemma_key_in_map(prev.entries@, k);
        }
    }
    Plan { merged, deleted, resurrected }
}

/// Whether the operator's answer, trimmed and lowercased, is `letter`.
pub fn answer_is(answer: &str, letter: &str) -> (r: bool)
    ensures
        r == answer_means(answer@, letter@),
{
    let t = trim(answer);
    let l = lowercase(t.as_str());
    l == String::from_str(letter)
}

/// Settles an annotation that left the code: kept and marked done, or dropped.
pub fn settle_deleted(list: &mut TodoList, id: u64, mark_done: bool)
    requires
        old(list).wf(),
        old(list)@.contains_key(id),
    ensures
        final(list).wf(),
        final(list)@ == if mark_done {
            old(list)@.insert(id, old(list)@[id].with_done(true))
        } else {
            old(list)@.remove(id)
        },
{
    if mark_done {
        let mut item = list.get(id).unwrap().duplicate();
        item.done = true;
        list.upsert(id, item);
    } else {
        list.remove(id);
    }
}

/// Settles an annotation that left the code by the operator's answer: `d`
/// marks it done, anything else drops it.
pub fn resolve_deleted(list: &mut TodoList, id: u64, answer: &str)
    requires
        old(list).wf(),
        old(list)@.contains_key(id),
    ensures
        final(list).wf(),
        final(list)@ == if answer_means(answer@, "d"@) {
            old(list)@.insert(id, old(list)@[id].with_done(true))
        } else {
            old(list)@.remove(id)
        },
{
    let mark_done = answer_is(answer, "d");
    settle_deleted(list, id, mark_done);
}

/// Settles an annotation that came back after being done: reopened under its
/// identifier, or kept done with an open copy under the first free identifier,
/// which is returned.
pub fn settle_resurrected(list: &mut TodoList, id: u64, reopen: bool) -> (r: Result<
    Option<u64>,
    ReconcileError,
>)
    requires
        old(list).wf(),
        old(list)@.contains_key(id),
    ensures
        final(list).wf(),
        reopen ==> r == Ok::<Option<u64>, ReconcileError>(None) && final(list)@ == old(
            list,
        )@.insert(id, old(list)@[id].with_done(false)),
        !reopen && first_free(old(list)@) < u64::MAX ==> {
            &&& r == Ok::<Option<u64>, ReconcileError>(Some(first_free(old(list)@)))
            &&& !old(list)@.contains_key(first_free(old(list)@))
            &&& final(list)@ == old(list)@.insert(id, old(list)@[id].with_done(true)).insert(
                first_free(old(list)@),
                old(list)@[id].with_done(false),
            )
        },
        !reopen && first_free(old(list)@) == u64::MAX ==> r is Err && final(list)@ == old(
            list,
        )@,
{
    let item = list.get(id).unwrap().duplicate();
    if reopen {
        let mut open = item;
        open.done = false;
        list.upsert(id, open);
        return Ok(None);
    }
    let fresh = IdAllocator::after(list).next;
    if fresh == u64::MAX {
        return Err(ReconcileError::IdsExhausted);
    }
    let mut kept = item.duplicate();
    kept.done = true;
    let mut copy = item;
    copy.done = false;
    list.upsert(id, kept);
    list.upsert(fresh, copy);
    Ok(Some(fresh))
}

/// Settles an annotation that came back after being done by the operator's
/// answer: `u` reopens it, anything else keeps it done and adds an open copy.
pub fn resolve_resurrected(list: &mut TodoList, id: u64, answer: &str) -> (r: Result<
    Option<u64>,
    ReconcileError,
>)
    requires
        old(list).wf(),
        old(list)@.contains_key(id),
    ensures
        final(list).wf(),
        answer_means(answer@, "u"@) ==> r == Ok::<Option<u64>, ReconcileError>(None)
            && final(list)@ == old(list)@.insert(id, old(list)@[id].with_done(false)),
        !answer_means(answer@, "u"@) && first_free(old(list)@) < u64::MAX ==> {
            &&& r == Ok::<Option<u64>, ReconcileError>(Some(first_free(old(list)@)))
            &&& !old(list)@.contains_key(first_free(old(list)@))
            &&& final(list)@ == old(list)@.insert(id, old(list)@[id].with_done(true)).insert(
                first_free(old(list)@),
                old(list)@[id].with_done(false),
            )
        },
        !answer_means(answer@, "u"@) && first_free(old(list)@) == u64::MAX ==> r is Err
            && final(list)@ == old(list)@,
{
    let reopen = answer_is(answer, "u");
    settle_resurrected(list, id, reopen)
}

/// What a plain listing stores: every annotation of the previous list or of
/// the scan, the scan's entry winning, except that an annotation that was done,
/// or that the scan no longer finds, keeps its previous entry until the
/// operator settles it.
pub open spec fn listing_view(prev: Map<u64, ItemView>, curr: Map<u64, ItemView>) -> Map<
    u64,
    ItemView,
> {
    Map::new(
        |k: u64| prev.contains_key(k) || curr.contains_key(k),
        |k: u64|
            if prev.contains_key(k) && (prev[k].done || !curr.contains_key(k)) {
                prev[k]
            } else {
                curr[k]
            },
    )
}

/// The list that a plain listing stores; see [`listing_view`].
pub fn listing_merge(prev: &TodoList, curr: &TodoList) -> (r: TodoList)
    requires
        prev.wf(),
        curr.wf(),
    ensures
        r.wf(),
        r@ == listing_view(prev@, curr@),
{
    let mut r = curr.duplicate();
    let n = prev.entries.len();
    let mut i: usize = 0;
    proof {
        assert(entries_map(prev.entries@.take(0)) =~= Map::<u64, ItemView>::empty());
        assert(r@ =~= listing_view(Map::<u64, ItemView>::empty(), curr@));
    }
    while i < n
        invariant
            prev.wf(),
            curr.wf(),
            r.wf(),
            n == prev.entries@.len(),
            i <= n,
            r@ == listing_view(entries_map(prev.entries@.take(i as int)), curr@),
        decreases n - i,
    {
        let e = &prev.entries[i];
        let ghost m = entries_map(prev.entries@.take(i as int));
        let ghost s1 = prev.entries@.take(i + 1);
        proof {
            assert(ids_ascending(prev.entries@.take(i as int)));
            assert(ids_ascending(s1));
            lemma_upsert_all_entries(Map::empty(), prev.entries@.take(i as int));
            lemma_upsert_all_entries(Map::empty(), s1);
            assert(entries_view(s1).drop_last() =~= entries_view(prev.entries@.take(i as int)));
            assert(Map::<u64, ItemView>::empty().union_prefer_right(m) =~= m);
            assert(Map::<u64, ItemView>::empty().union_prefer_right(entries_map(s1))
                =~= entries_map(s1));
            assert(entries_map(s1) == m.insert(e.id, e.item@));
            if m.contains_key(e.id) {
                lemma_key_in_map(prev.entries@.take(i as int), e.id);
                let j = choose|j: int| 0 <= j < i && prev.entries@.take(i as int)[j].id == e.id;
                assert(prev.entries@[j].id < prev.entries@[i as int].id);
            }
        }
        let keep_previous = e.item.done || curr.position(e.id).is_none();
        if keep_previous {
            r.upsert(e.id, e.item.duplicate());
        }
        assert(r@ =~= listing_view(m.insert(e.id, e.item@), curr@));
        i = i + 1;
    }
    proof {
        assert(prev.entries@.take(n as int) =~= prev.entries@);
    }
    r
}

} // verus!
