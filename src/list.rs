//! The in-memory todo list: a mapping from labels to completion flags.
use vstd::prelude::*;

verus! {

/// One entry as the specifications see it: a label and its flag.
pub type EntryView = (Seq<char>, bool);

/// Is `label` the label of some entry of `es`?
pub open spec fn has_label(es: Seq<EntryView>, label: Seq<char>) -> bool {
    exists|i: int| 0 <= i < es.len() && (#[trigger] es[i]).0 == label
}

/// No two entries of `es` share a label.
pub open spec fn labels_unique(es: Seq<EntryView>) -> bool {
    forall|i: int, j: int|
        0 <= i < es.len() && 0 <= j < es.len() && i != j ==> (#[trigger] es[i]).0 != (#[trigger] es[j]).0
}

/// The mapping denoted by a sequence of entries with unique labels.
pub open spec fn map_of(es: Seq<EntryView>) -> Map<Seq<char>, bool> {
    Map::new(
        |l: Seq<char>| has_label(es, l),
        |l: Seq<char>| es[choose|i: int| 0 <= i < es.len() && (#[trigger] es[i]).0 == l].1,
    )
}

/// With unique labels, the entry at `k` gives the mapping's value for its label.
pub proof fn lemma_map_of_entry(es: Seq<EntryView>, k: int)
    requires
        labels_unique(es),
        0 <= k < es.len(),
    ensures
        map_of(es).contains_key(es[k].0),
        map_of(es)[es[k].0] == es[k].1,
{
    assert(has_label(es, es[k].0));
}

/// Replacing the flag of an existing entry overwrites that label in the mapping.
pub proof fn lemma_map_of_update(es: Seq<EntryView>, k: int, e: EntryView)
    requires
        labels_unique(es),
        0 <= k < es.len(),
        es[k].0 == e.0,
    ensures
        labels_unique(es.update(k, e)),
        map_of(es.update(k, e)) == map_of(es).insert(e.0, e.1),
{
    let es2 = es.update(k, e);
    assert(labels_unique(es2));
    lemma_map_of_entry(es2, k);
    assert forall|l: Seq<char>| has_label(es2, l) == (has_label(es, l) || l == e.0) by {
        if has_label(es, l) {
            let i = choose|i: int| 0 <= i < es.len() && (#[trigger] es[i]).0 == l;
            assert(es2[i].0 == l);
        }
        if has_label(es2, l) {
            let i = choose|i: int| 0 <= i < es2.len() && (#[trigger] es2[i]).0 == l;
            assert(es[i].0 == l);
        }
    }
    assert forall|l: Seq<char>| has_label(es2, l) && l != e.0 implies map_of(es2)[l] == map_of(es)[l] by {
        let i = choose|i: int| 0 <= i < es2.len() && (#[trigger] es2[i]).0 == l;
        lemma_map_of_entry(es2, i);
        lemma_map_of_entry(es, i);
    }
    assert(map_of(es2) =~= map_of(es).insert(e.0, e.1));
}

/// Appending an entry with a new label adds that label to the mapping.
pub proof fn lemma_map_of_push(es: Seq<EntryView>, e: EntryView)
    requires
        labels_unique(es),
        !has_label(es, e.0),
    ensures
        labels_unique(es.push(e)),
        map_of(es.push(e)) == map_of(es).insert(e.0, e.1),
{
    let es2 = es.push(e);
    assert forall|i: int, j: int|
        0 <= i < es2.len() && 0 <= j < es2.len() && i != j implies (#[trigger] es2[i]).0
        != (#[trigger] es2[j]).0 by {
        if i < es.len() && j < es.len() {
            assert(es2[i] == es[i] && es2[j] == es[j]);
        } else if i < es.len() {
            assert(es2[i] == es[i]);
        } else {
            assert(es2[j] == es[j]);
        }
    }
    lemma_map_of_entry(es2, es.len() as int);
    assert forall|l: Seq<char>| has_label(es2, l) == (has_label(es, l) || l == e.0) by {
        if has_label(es, l) {
            let i = choose|i: int| 0 <= i < es.len() && (#[trigger] es[i]).0 == l;
            assert(es2[i].0 == l);
        }
        if has_label(es2, l) && l != e.0 {
            let i = choose|i: int| 0 <= i < es2.len() && (#[trigger] es2[i]).0 == l;
            assert(es[i].0 == l);
        }
    }
    assert forall|l: Seq<char>| has_label(es2, l) && l != e.0 implies map_of(es2)[l] == map_of(es)[l] by {
        let i = choose|i: int| 0 <= i < es2.len() && (#[trigger] es2[i]).0 == l;
        assert(i < es.len());
        lemma_map_of_entry(es2, i);
        lemma_map_of_entry(es, i);
    }
    assert(map_of(es2) =~= map_of(es).insert(e.0, e.1));
}

/// Removing the entry at `k` removes its label from the mapping.
pub proof fn lemma_map_of_remove(es: Seq<EntryView>, k: int)
    requires
        labels_unique(es),
        0 <= k < es.len(),
    ensures
        labels_unique(es.remove(k)),
        map_of(es.remove(k)) == map_of(es).remove(es[k].0),
{
    let es2 = es.remove(k);
    let gone = es[k].0;
    assert forall|i: int, j: int|
        0 <= i < es2.len() && 0 <= j < es2.len() && i != j implies (#[trigger] es2[i]).0
        != (#[trigger] es2[j]).0 by {
        let oi = if i < k { i } else { i + 1 };
        let oj = if j < k { j } else { j + 1 };
        assert(es2[i] == es[oi] && es2[j] == es[oj]);
    }
    assert forall|l: Seq<char>| has_label(es2, l) == (has_label(es, l) && l != gone) by {
        if has_label(es, l) && l != gone {
            let i = choose|i: int| 0 <= i < es.len() && (#[trigger] es[i]).0 == l;
            assert(i != k);
            if i < k {
                assert(es2[i].0 == l);
            } else {
                assert(es2[i - 1].0 == l);
            }
        }
        if has_label(es2, l) {
            let i = choose|i: int| 0 <= i < es2.len() && (#[trigger] es2[i]).0 == l;
            let oi = if i < k { i } else { i + 1 };
            assert(es[oi].0 == l);
            assert(oi != k);
        }
    }
    assert forall|l: Seq<char>| has_label(es2, l) implies map_of(es2)[l] == map_of(es)[l] by {
        let i = choose|i: int| 0 <= i < es2.len() && (#[trigger] es2[i]).0 == l;
        let oi = if i < k { i } else { i + 1 };
        assert(es2[i] == es[oi]);
        lemma_map_of_entry(es2, i);
        lemma_map_of_entry(es, oi);
    }
    assert(map_of(es2) =~= map_of(es).remove(gone));
}

/// With unique labels, the mapping has one key per entry.
pub proof fn lemma_map_of_len(es: Seq<EntryView>)
    requires
        labels_unique(es),
    ensures
        map_of(es).dom().finite(),
        map_of(es).len() == es.len(),
{
    let ls = es.map_values(|e: EntryView| e.0);
    assert(ls.no_duplicates()) by {
        assert forall|i: int, j: int| 0 <= i < ls.len() && 0 <= j < ls.len() && i != j implies ls[i]
            != ls[j] by {
            assert(ls[i] == es[i].0 && ls[j] == es[j].0);
        }
    }
    assert forall|l: Seq<char>| map_of(es).dom().contains(l) <==> ls.to_set().contains(l) by {
        if has_label(es, l) {
            let i = choose|i: int| 0 <= i < es.len() && (#[trigger] es[i]).0 == l;
            assert(ls[i] == l);
        }
        if ls.contains(l) {
            let i = choose|i: int| 0 <= i < ls.len() && ls[i] == l;
            assert(es[i].0 == l);
        }
    }
    assert(map_of(es).dom() =~= ls.to_set());
    vstd::seq_lib::seq_to_set_is_finite(ls);
    ls.unique_seq_to_set();
}

/// The first entry and the mapping of the others make up the whole mapping.
pub proof fn lemma_map_of_cons(es: Seq<EntryView>)
    requires
        labels_unique(es),
        es.len() > 0,
    ensures
        labels_unique(es.drop_first()),
        !map_of(es.drop_first()).contains_key(es[0].0),
        map_of(es) == map_of(es.drop_first()).insert(es[0].0, es[0].1),
{
    let t = es.drop_first();
    assert forall|i: int, j: int| 0 <= i < t.len() && 0 <= j < t.len() && i != j implies (
    #[trigger] t[i]).0 != (#[trigger] t[j]).0 by {
        assert(t[i] == es[i + 1] && t[j] == es[j + 1]);
    }
    if has_label(t, es[0].0) {
        let i = choose|i: int| 0 <= i < t.len() && (#[trigger] t[i]).0 == es[0].0;
        assert(t[i] == es[i + 1]);
    }
    lemma_map_of_entry(es, 0);
    assert forall|l: Seq<char>| has_label(es, l) == (has_label(t, l) || l == es[0].0) by {
        if has_label(es, l) && l != es[0].0 {
            let i = choose|i: int| 0 <= i < es.len() && (#[trigger] es[i]).0 == l;
            assert(t[i - 1] == es[i]);
        }
        if has_label(t, l) {
            let i = choose|i: int| 0 <= i < t.len() && (#[trigger] t[i]).0 == l;
            assert(t[i] == es[i + 1]);
        }
    }
    assert forall|l: Seq<char>| has_label(t, l) implies map_of(es)[l] == map_of(t)[l] by {
        let i = choose|i: int| 0 <= i < t.len() && (#[trigger] t[i]).0 == l;
        assert(t[i] == es[i + 1]);
        lemma_map_of_entry(t, i);
        lemma_map_of_entry(es, i + 1);
    }
    assert(map_of(es) =~= map_of(t).insert(es[0].0, es[0].1));
}

/// The todo list: each label at most once, with its completion flag.
#[derive(Debug)]
pub struct TodoList {
    entries: Vec<(String, bool)>,
}

impl TodoList {
    /// The entries, as labels and flags, in storage order.
    pub closed spec fn entries_view(&self) -> Seq<EntryView> {
        self.entries@.map_values(|e: (String, bool)| (e.0@, e.1))
    }

    /// Labels are unique.
    pub closed spec fn wf(&self) -> bool {
        labels_unique(self.entries_view())
    }

    /// The list as a mapping from labels to flags.
    pub closed spec fn view(&self) -> Map<Seq<char>, bool> {
        map_of(self.entries_view())
    }

    /// An empty list.
    pub fn new() -> (r: TodoList)
        ensures
            r.wf(),
            r@ == Map::<Seq<char>, bool>::empty(),
    {
        let r = TodoList { entries: Vec::new() };
        assert(r@ =~= Map::<Seq<char>, bool>::empty());
        r
    }

    /// Sets the flag of `label` to `checked`, adding the label if it is absent.
    pub fn add(&mut self, label: String, checked: bool)
        requires
            old(self).wf(),
        ensures
            final(self).wf(),
            final(self)@ == old(self)@.insert(label@, checked),
    {
        let ghost es = self.entries_view();
        let ghost l = label@;
        match self.find(&label) {
            Some(i) => {
                self.entries[i] = (label, checked);
                proof {
                    lemma_map_of_update(es, i as int, (l, checked));
                    assert(self.entries_view() =~= es.update(i as int, (l, checked)));
                }
            },
            None => {
                proof {
                    if has_label(es, l) {
                        let k = choose|k: int| 0 <= k < es.len() && (#[trigger] es[k]).0 == l;
                        lemma_map_of_entry(es, k);
                    }
                }
                self.entries.push((label, checked));
                proof {
                    lemma_map_of_push(es, (l, checked));
                    assert(self.entries_view() =~= es.push((l, checked)));
                }
            },
        }
    }

    /// Marks `label` as done, adding it if it is absent.
    pub fn check(&mut self, label: String)
        requires
            old(self).wf(),
        ensures
            final(self).wf(),
            final(self)@ == old(self)@.insert(label@, true),
    {
        self.add(label, true);
    }

    /// Removes `label`; nothing happens when it is absent.
    pub fn delete(&mut self, label: &String)
        requires
            old(self).wf(),
        ensures
            final(self).wf(),
            final(self)@ == old(self)@.remove(label@),
    {
        let ghost es = self.entries_view();
        match self.find(label) {
            Some(i) => {
                self.entries.remove(i);
                proof {
                    lemma_map_of_remove(es, i as int);
                    assert(self.entries_view() =~= es.remove(i as int));
                }
            },
            None => {
                assert(self@ =~= self@.remove(label@));
            },
        }
    }

    /// The number of items.
    pub fn len(&self) -> (r: usize)
        requires
            self.wf(),
        ensures
            self@.dom().finite(),
            r == self@.len(),
    {
        proof {
            lemma_map_of_len(self.entries_view());
        }
        self.entries.len()
    }

    /// The flag of `label`, or `None` when the list does not hold it.
    pub fn get(&self, label: &String) -> (r: Option<bool>)
        requires
            self.wf(),
        ensures
            r == (if self@.contains_key(label@) { Some(self@[label@]) } else { None::<bool> }),
    {
        match self.find(label) {
            Some(i) => {
                proof {
                    lemma_map_of_entry(self.entries_view(), i as int);
                }
                Some(self.entries[i].1)
            },
            None => None,
        }
    }

    /// A copy of the entries, each label once, in storage order.
    pub fn entries(&self) -> (r: Vec<(String, bool)>)
        requires
            self.wf(),
        ensures
            r@.map_values(|e: (String, bool)| (e.0@, e.1)) == self.entries_view(),
            labels_unique(r@.map_values(|e: (String, bool)| (e.0@, e.1))),
            map_of(r@.map_values(|e: (String, bool)| (e.0@, e.1))) == self@,
    {
        let mut r: Vec<(String, bool)> = Vec::new();
        let mut i: usize = 0;
        while i < self.entries.len()
            invariant
                i <= self.entries.len(),
                r@.len() == i,
                forall|j: int| 0 <= j < i ==> (#[trigger] r@[j]).0@ == self.entries@[j].0@ && r@[j].1 == self.entries@[j].1,
            decreases self.entries.len() - i,
        {
            r.push((self.entries[i].0.clone(), self.entries[i].1));
            i = i + 1;
        }
        assert(r@.map_values(|e: (String, bool)| (e.0@, e.1)) =~= self.entries_view());
        r
    }

    /// The position of the entry labelled `label`, if any.
    fn find(&self, label: &String) -> (r: Option<usize>)
        requires
            self.wf(),
        ensures
            match r {
                Some(i) => i < self.entries_view().len() && self.entries_view()[i as int].0 == label@,
                None => !self@.contains_key(label@),
            },
    {
        let mut i: usize = 0;
        while i < self.entries.len()
            invariant
                i <= self.entries.len(),
                forall|j: int| 0 <= j < i ==> (#[trigger] self.entries_view()[j]).0 != label@,
            decreases self.entries.len() - i,
        {
            if self.entries[i].0 == *label {
                return Some(i);
            }
            i = i + 1;
        }
        None
    }
}


/// Checking an item twice leaves the list as checking it once does.
pub proof fn lemma_check_idempotent(m: Map<Seq<char>, bool>, label: Seq<char>)
    ensures
        m.insert(label, true).insert(label, true) == m.insert(label, true),
{
    assert(m.insert(label, true).insert(label, true) =~= m.insert(label, true));
}

/// Adding an item unchecked after checking it resets its flag and creates no
/// second entry: the list holds the same labels as after the check alone.
pub proof fn lemma_add_overwrites_check(m: Map<Seq<char>, bool>, label: Seq<char>)
    requires
        m.dom().finite(),
    ensures
        m.insert(label, true).insert(label, false) == m.insert(label, false),
        m.insert(label, true).insert(label, false)[label] == false,
        m.insert(label, true).insert(label, false).dom() == m.insert(label, true).dom(),
        m.insert(label, true).insert(label, false).len() == m.insert(label, true).len(),
        m.insert(label, true).len() == if m.contains_key(label) {
            m.len()
        } else {
            m.len() + 1
        },
{
    assert(m.insert(label, true).insert(label, false) =~= m.insert(label, false));
    assert(m.insert(label, true).insert(label, false).dom() =~= m.insert(label, true).dom());
    if m.contains_key(label) {
        assert(m.insert(label, true).dom() =~= m.dom());
    }
}

/// Deleting an item shrinks the list by one when it was there and leaves it
/// alone otherwise; no other item changes.
pub proof fn lemma_delete_removes_one(m: Map<Seq<char>, bool>, label: Seq<char>)
    requires
        m.dom().finite(),
    ensures
        m.remove(label).len() == if m.contains_key(label) {
            m.len() - 1
        } else {
            m.len() as int
        },
        !m.remove(label).contains_key(label),
        forall|l: Seq<char>|
            l != label ==> (#[trigger] m.remove(label).contains_key(l) == m.contains_key(l) && (
            m.contains_key(l) ==> m.remove(label)[l] == m[l])),
{
    if !m.contains_key(label) {
        assert(m.remove(label).dom() =~= m.dom());
    }
}

} // verus!
