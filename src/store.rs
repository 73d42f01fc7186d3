use vstd::prelude::*;

use crate::item::{ItemView, TodoItem};
use crate::text::{id_of_text, parse_id};

verus! {

/// An annotation together with its identifier.
pub struct Entry {
    pub id: u64,
    pub item: TodoItem,
}

/// The annotation list: identifiers mapped to annotations, held in
/// ascending identifier order.
pub struct TodoList {
    pub entries: Vec<Entry>,
}

/// Identifiers strictly increase along the sequence, so none repeats.
pub open spec fn ids_ascending(s: Seq<Entry>) -> bool {
    forall|i: int, j: int| 0 <= i < j < s.len() ==> s[i].id < s[j].id
}

pub open spec fn holds_id(s: Seq<Entry>, k: u64) -> bool {
    exists|i: int| 0 <= i < s.len() && s[i].id == k
}

/// The map that a sequence of entries stands for.
pub open spec fn entries_map(s: Seq<Entry>) -> Map<u64, ItemView> {
    Map::new(
        |k: u64| holds_id(s, k),
        |k: u64| s[choose|i: int| 0 <= i < s.len() && s[i].id == k].item@,
    )
}

pub open spec fn entries_view(v: Seq<Entry>) -> Seq<(u64, ItemView)> {
    v.map_values(|e: Entry| (e.id, e.item@))
}

/// The map after storing each pair in turn, a later pair replacing an earlier one.
pub open spec fn upsert_all(m: Map<u64, ItemView>, s: Seq<(u64, ItemView)>) -> Map<u64, ItemView>
    decreases s.len(),
{
    if s.len() == 0 {
        m
    } else {
        upsert_all(m, s.drop_last()).insert(s.last().0, s.last().1)
    }
}

/// Stored pairs read back with their keys taken as identifiers.
pub open spec fn keyed_view(s: Seq<(String, TodoItem)>) -> Seq<(u64, ItemView)> {
    s.map_values(|p: (String, TodoItem)| (id_of_text(p.0@)->Some_0, p.1@))
}

/// After storing a sequence of pairs, the map holds exactly the keys it held
/// before and the keys of the pairs; so absorbing the annotations of several
/// files collects every identifier any of them found.
pub proof fn lemma_upsert_all_keys(m: Map<u64, ItemView>, s: Seq<(u64, ItemView)>, k: u64)
    ensures
        upsert_all(m, s).contains_key(k) <==> (m.contains_key(k) || exists|j: int|
            0 <= j < s.len() && (#[trigger] s[j]).0 == k),
    decreases s.len(),
{
    if s.len() > 0 {
        let t = s.drop_last();
        lemma_upsert_all_keys(m, t, k);
        if exists|j: int| 0 <= j < t.len() && (#[trigger] t[j]).0 == k {
            let j = choose|j: int| 0 <= j < t.len() && (#[trigger] t[j]).0 == k;
            assert(s[j] == t[j]);
        }
        if exists|j: int| 0 <= j < s.len() && (#[trigger] s[j]).0 == k {
            let j = choose|j: int| 0 <= j < s.len() && (#[trigger] s[j]).0 == k;
            if j < t.len() {
                assert(t[j] == s[j]);
            }
        }
    }
}

/// Every key of the stored pairs is an identifier.
pub open spec fn keys_readable(s: Seq<(String, TodoItem)>) -> bool {
    forall|i: int| 0 <= i < s.len() ==> (#[trigger] id_of_text(s[i].0@)) is Some
}

/// No two keys of the stored pairs name the same identifier.
pub open spec fn keys_distinct(s: Seq<(String, TodoItem)>) -> bool {
    forall|i: int, j: int|
        0 <= i < j < s.len() ==> #[trigger] id_of_text(s[i].0@) != #[trigger] id_of_text(s[j].0@)
}

/// Storing the entries of an ordered sequence one by one gives the map it stands for.
pub proof fn lemma_upsert_all_entries(m: Map<u64, ItemView>, s: Seq<Entry>)
    requires
        ids_ascending(s),
    ensures
        upsert_all(m, entries_view(s)) == m.union_prefer_right(entries_map(s)),
    decreases s.len(),
{
    if s.len() == 0 {
        assert(entries_map(s) =~= Map::<u64, ItemView>::empty());
        assert(m.union_prefer_right(entries_map(s)) =~= m);
    } else {
        let t = s.drop_last();
        assert(entries_view(s).drop_last() =~= entries_view(t));
        lemma_upsert_all_entries(m, t);
        let last = s[s.len() - 1];
        lemma_entry_in_map(s, s.len() - 1);
        assert forall|k: u64| #[trigger] entries_map(s).contains_key(k) <==> entries_map(
            t,
        ).insert(last.id, last.item@).contains_key(k) by {
            if entries_map(s).contains_key(k) && k != last.id {
                let i = choose|i: int| 0 <= i < s.len() && s[i].id == k;
                assert(t[i].id == k);
                assert(holds_id(t, k));
            }
            if entries_map(t).contains_key(k) {
                let i = choose|i: int| 0 <= i < t.len() && t[i].id == k;
                assert(s[i].id == k);
                assert(holds_id(s, k));
            }
        }
        assert forall|k: u64| #[trigger]
            entries_map(s).contains_key(k) && k != last.id implies entries_map(s)[k]
            == entries_map(t)[k] by {
            let i = choose|i: int| 0 <= i < s.len() && s[i].id == k;
            lemma_entry_in_map(s, i);
            assert(t[i] == s[i]);
            lemma_entry_in_map(t, i);
        }
        assert(entries_map(s) =~= entries_map(t).insert(last.id, last.item@));
        assert(upsert_all(m, entries_view(s)) =~= m.union_prefer_right(entries_map(s)));
    }
}

pub proof fn lemma_entry_in_map(s: Seq<Entry>, i: int)
    requires
        ids_ascending(s),
        0 <= i < s.len(),
    ensures
        entries_map(s).contains_key(s[i].id),
        entries_map(s)[s[i].id] == s[i].item@,
{
    let k = s[i].id;
    assert(holds_id(s, k));
    let j = choose|j: int| 0 <= j < s.len() && s[j].id == k;
    assert(j == i);
}

pub proof fn lemma_key_in_map(s: Seq<Entry>, k: u64)
    requires
        ids_ascending(s),
        entries_map(s).contains_key(k),
    ensures
        exists|i: int| 0 <= i < s.len() && s[i].id == k,
{
}

pub proof fn lemma_map_len(s: Seq<Entry>)
    requires
        ids_ascending(s),
    ensures
        entries_map(s).dom().finite(),
        entries_map(s).len() == s.len(),
    decreases s.len(),
{
    if s.len() == 0 {
        assert(entries_map(s).dom() =~= Set::<u64>::empty());
    } else {
        let t = s.drop_last();
        let m = entries_map(t);
        lemma_map_len(t);
        assert forall|k: u64| #[trigger] entries_map(s).dom().contains(k) <==> m.dom().insert(
            s.last().id,
        ).contains(k) by {
            if entries_map(s).dom().contains(k) {
                let i = choose|i: int| 0 <= i < s.len() && s[i].id == k;
                if i < t.len() {
                    assert(t[i].id == k);
                    assert(holds_id(t, k));
                }
            }
            if m.dom().contains(k) {
                let i = choose|i: int| 0 <= i < t.len() && t[i].id == k;
                assert(s[i].id == k);
                assert(holds_id(s, k));
            }
            if k == s.last().id {
                assert(s[s.len() - 1].id == k);
                assert(holds_id(s, k));
            }
        }
        assert(entries_map(s).dom() =~= m.dom().insert(s.last().id));
        assert(!m.dom().contains(s.last().id)) by {
            if m.dom().contains(s.last().id) {
                let i = choose|i: int| 0 <= i < t.len() && t[i].id == s.last().id;
                assert(s[i].id < s[s.len() - 1].id);
            }
        }
    }
}

impl View for TodoList {
    type V = Map<u64, ItemView>;

    open spec fn view(&self) -> Map<u64, ItemView> {
        entries_map(self.entries@)
    }
}

impl TodoList {
    pub open spec fn wf(&self) -> bool {
        ids_ascending(self.entries@)
    }

    pub fn new() -> (r: TodoList)
        ensures
            r.wf(),
            r@ == Map::<u64, ItemView>::empty(),
    {
        let r = TodoList { entries: Vec::new() };
        assert(r@ =~= Map::<u64, ItemView>::empty());
        r
    }

    /// Number of annotations in the list.
    pub fn len(&self) -> (r: usize)
        requires
            self.wf(),
        ensures
            r == self@.len(),
    {
        proof {
            self.lemma_len();
        }
        self.entries.len()
    }

    pub proof fn lemma_len(&self)
        requires
            self.wf(),
        ensures
            self@.dom().finite(),
            self@.len() == self.entries@.len(),
    {
        lemma_map_len(self.entries@);
    }

    /// Position of the entry with identifier `id`, if any.
    pub fn position(&self, id: u64) -> (r: Option<usize>)
        requires
            self.wf(),
        ensures
            r is None <==> !self@.contains_key(id),
            r matches Some(p) ==> p < self.entries@.len() && self.entries@[p as int].id == id,
    {
        let mut p: usize = 0;
        while p < self.entries.len()
            invariant
                self.wf(),
                p <= self.entries@.len(),
                forall|i: int| 0 <= i < p ==> self.entries@[i].id != id,
            decreases self.entries@.len() - p,
        {
            if self.entries[p].id == id {
                proof {
                    lemma_entry_in_map(self.entries@, p as int);
                }
                return Some(p);
            }
            p = p + 1;
        }
        proof {
            if self@.contains_key(id) {
                lemma_key_in_map(self.entries@, id);
            }
        }
        None
    }

    /// The annotation stored under `id`.
    pub fn get(&self, id: u64) -> (r: Option<&TodoItem>)
        requires
            self.wf(),
        ensures
            r is Some <==> self@.contains_key(id),
            r matches Some(item) ==> item@ == self@[id],
    {
        match self.position(id) {
            Some(p) => {
                proof {
                    lemma_entry_in_map(self.entries@, p as int);
                }
                Some(&self.entries[p].item)
            },
            None => None,
        }
    }

    /// Stores `item` under `id`, replacing what was there.
    pub fn upsert(&mut self, id: u64, item: TodoItem)
        requires
            old(self).wf(),
        ensures
            final(self).wf(),
            final(self)@ == old(self)@.insert(id, item@),
    {
        let mut p: usize = 0;
        while p < self.entries.len() && self.entries[p].id < id
            invariant
                p <= self.entries@.len(),
                forall|i: int| 0 <= i < p ==> self.entries@[i].id < id,
            decreases self.entries@.len() - p,
        {
            p = p + 1;
        }
        let ghost s = self.entries@;
        let ghost pos = p as int;
        let replace = p < self.entries.len() && self.entries[p].id == id;
        let e = Entry { id, item };
        let ghost ev = e;
        if replace {
            self.entries.set(p, e);
        } else {
            self.entries.insert(p, e);
        }
        proof {
            let t = self.entries@;
            if replace {
                assert(t == s.update(pos, ev));
            } else {
                assert(t == s.insert(pos, ev));
                assert(pos < s.len() ==> s[pos].id > id);
            }
            assert(ids_ascending(t));
            let m = entries_map(s).insert(id, ev.item@);
            assert forall|k: u64| #[trigger] entries_map(t).contains_key(k) <==> m.contains_key(
                k,
            ) by {
                if entries_map(t).contains_key(k) {
                    let i = choose|i: int| 0 <= i < t.len() && t[i].id == k;
                    if k != id {
                        let j = if replace || i < pos {
                            i
                        } else {
                            i - 1
                        };
                        assert(s[j].id == k);
                        lemma_entry_in_map(s, j);
                    }
                }
                if m.contains_key(k) && k != id {
                    lemma_key_in_map(s, k);
                    let j = choose|j: int| 0 <= j < s.len() && s[j].id == k;
                    let i = if replace || j < pos {
                        j
                    } else {
                        j + 1
                    };
                    assert(t[i].id == k);
                    lemma_entry_in_map(t, i);
                }
                if k == id {
                    lemma_entry_in_map(t, pos);
                }
            }
            assert forall|k: u64| #[trigger]
                entries_map(t).contains_key(k) implies entries_map(t)[k] == m[k] by {
                let i = choose|i: int| 0 <= i < t.len() && t[i].id == k;
                lemma_entry_in_map(t, i);
                if k != id {
                    let j = if replace || i < pos {
                        i
                    } else {
                        i - 1
                    };
                    assert(s[j].id == k);
                    lemma_entry_in_map(s, j);
                } else {
                    lemma_entry_in_map(t, pos);
                }
            }
            assert(entries_map(t) =~= m);
        }
    }

    /// Drops the annotation stored under `id`, if any.
    pub fn remove(&mut self, id: u64)
        requires
            old(self).wf(),
        ensures
            final(self).wf(),
            final(self)@ == old(self)@.remove(id),
    {
        match self.position(id) {
            None => {
                assert(self@ =~= self@.remove(id));
            },
            Some(p) => {
                let ghost s = self.entries@;
                let ghost pos = p as int;
                self.entries.remove(p);
                proof {
                    let t = self.entries@;
                    assert(t == s.remove(pos));
                    assert(ids_ascending(t));
                    let m = entries_map(s).remove(id);
                    assert forall|k: u64| #[trigger]
                        entries_map(t).contains_key(k) <==> m.contains_key(k) by {
                        if entries_map(t).contains_key(k) {
                            let i = choose|i: int| 0 <= i < t.len() && t[i].id == k;
                            let j = if i < pos {
                                i
                            } else {
                                i + 1
                            };
                            assert(s[j].id == k);
                            lemma_entry_in_map(s, j);
                        }
                        if m.contains_key(k) {
                            lemma_key_in_map(s, k);
                            let j = choose|j: int| 0 <= j < s.len() && s[j].id == k;
                            let i = if j < pos {
                                j
                            } else {
                                j - 1
                            };
                            assert(t[i].id == k);
                            lemma_entry_in_map(t, i);
                        }
                    }
                    assert forall|k: u64| #[trigger]
                        entries_map(t).contains_key(k) implies entries_map(t)[k] == m[k] by {
                        let i = choose|i: int| 0 <= i < t.len() && t[i].id == k;
                        lemma_entry_in_map(t, i);
                        let j = if i < pos {
                            i
                        } else {
                            i + 1
                        };
                        assert(s[j].id == k);
                        lemma_entry_in_map(s, j);
                    }
                    assert(entries_map(t) =~= m);
                }
            },
        }
    }

    /// Stores each entry of `found` in turn.
    pub fn absorb(&mut self, found: &Vec<Entry>)
        requires
            old(self).wf(),
        ensures
            final(self).wf(),
            final(self)@ == upsert_all(old(self)@, entries_view(found@)),
    {
        let ghost start = self@;
        let mut i: usize = 0;
        while i < found.len()
            invariant
                self.wf(),
                i <= found@.len(),
                self@ == upsert_all(start, entries_view(found@).take(i as int)),
            decreases found@.len() - i,
        {
            proof {
                assert(entries_view(found@).take(i + 1).drop_last() =~= entries_view(
                    found@,
                ).take(i as int));
            }
            let e = &found[i];
            self.upsert(e.id, e.item.duplicate());
            i = i + 1;
        }
        proof {
            assert(entries_view(found@).take(found@.len() as int) =~= entries_view(found@));
        }
    }

    /// A copy of the list.
    pub fn duplicate(&self) -> (r: TodoList)
        requires
            self.wf(),
        ensures
            r.wf(),
            r@ == self@,
    {
        let mut r = TodoList::new();
        r.absorb(&self.entries);
        proof {
            lemma_upsert_all_entries(Map::empty(), self.entries@);
            assert(Map::<u64, ItemView>::empty().union_prefer_right(self@) =~= self@);
        }
        r
    }

    /// The list that stored pairs stand for, each key read as an identifier;
    /// `None` where a key is not an identifier or two keys name the same one
    /// (such a store is discarded, not repaired).
    pub fn from_keyed(pairs: &Vec<(String, TodoItem)>) -> (r: Option<TodoList>)
        ensures
            r is Some <==> keys_readable(pairs@) && keys_distinct(pairs@),
            r matches Some(l) ==> l.wf() && l@ == upsert_all(
                Map::empty(),
                keyed_view(pairs@),
            ),
    {
        let mut l = TodoList::new();
        let mut i: usize = 0;
        while i < pairs.len()
            invariant
                l.wf(),
                i <= pairs@.len(),
                forall|j: int| 0 <= j < i ==> (#[trigger] id_of_text(pairs@[j].0@)) is Some,
                forall|j1: int, j2: int|
                    0 <= j1 < j2 < i ==> #[trigger] id_of_text(pairs@[j1].0@) != #[trigger] id_of_text(
                        pairs@[j2].0@,
                    ),
                forall|k: u64|
                    l@.contains_key(k) <==> exists|j: int|
                        0 <= j < i && #[trigger] id_of_text(pairs@[j].0@) == Some(k),
                l@ == upsert_all(Map::empty(), keyed_view(pairs@).take(i as int)),
            decreases pairs@.len() - i,
        {
            proof {
                assert(keyed_view(pairs@).take(i + 1).drop_last() =~= keyed_view(pairs@).take(
                    i as int,
                ));
            }
            let (key, item) = &pairs[i];
            match parse_id(key.as_str()) {
                Some(id) => {
                    if l.position(id).is_some() {
                        proof {
                            let j = choose|j: int|
                                0 <= j < i && #[trigger] id_of_text(pairs@[j].0@) == Some(id);
                            assert(id_of_text(pairs@[j].0@) == id_of_text(pairs@[i as int].0@));
                        }
                        return None;
                    }
                    l.upsert(id, item.duplicate());
                    proof {
                        assert forall|k: u64|
                            l@.contains_key(k) implies exists|j: int|
                                0 <= j < i + 1 && #[trigger] id_of_text(pairs@[j].0@) == Some(
                                    k,
                                ) by {
                            if k == id {
                                assert(id_of_text(pairs@[i as int].0@) == Some(k));
                            }
                        }
                    }
                },
                None => {
                    return None;
                },
            }
            i = i + 1;
        }
        proof {
            assert(keyed_view(pairs@).take(pairs@.len() as int) =~= keyed_view(pairs@));
        }
        Some(l)
    }

    /// The largest identifier in the list, if it holds any.
    pub fn max_id(&self) -> (r: Option<u64>)
        requires
            self.wf(),
        ensures
            r is None <==> self@.dom() =~= Set::<u64>::empty(),
            r matches Some(m) ==> self@.contains_key(m) && forall|k: u64| #[trigger]
                self@.contains_key(k) ==> k <= m,
    {
        let n = self.entries.len();
        if n == 0 {
            assert(self@.dom() =~= Set::<u64>::empty());
            None
        } else {
            let m = self.entries[n - 1].id;
            proof {
                lemma_entry_in_map(self.entries@, n - 1);
                assert forall|k: u64| #[trigger] self@.contains_key(k) implies k <= m by {
                    lemma_key_in_map(self.entries@, k);
                }
            }
            Some(m)
        }
    }
}

} // verus!
