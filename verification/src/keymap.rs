//! `ManagedMap`: the variables easyenv currently manages, kept sorted by
//! key so that iteration (and so the encoded state and the order of
//! restore statements) is deterministic.
use vstd::prelude::*;
use crate::text::{key_lt, key_less, str_eq, lemma_key_lt_irreflexive, lemma_key_lt_total, lemma_key_lt_transitive};

verus! {

/// What a managed variable held before easyenv first touched it.
#[derive(Debug, Clone, PartialEq, Eq)]
pub enum PriorValue {
    /// This key did not exist before easyenv touched it; unset it on unload.
    Unset,
    /// This key had this value before easyenv touched it; restore it.
    SetTo(String),
}

impl View for PriorValue {
    type V = Option<Seq<char>>;

    open spec fn view(&self) -> Option<Seq<char>> {
        match self {
            PriorValue::Unset => None,
            PriorValue::SetTo(s) => Some(s@),
        }
    }
}

impl PriorValue {
    pub fn clone_value(&self) -> (r: PriorValue)
        ensures
            r@ == self@,
    {
        match self {
            PriorValue::Unset => PriorValue::Unset,
            PriorValue::SetTo(s) => PriorValue::SetTo(s.clone()),
        }
    }
}

#[derive(Debug, Clone, PartialEq, Eq)]
pub struct ManagedVar {
    pub prior: PriorValue,
}

impl View for ManagedVar {
    type V = Option<Seq<char>>;

    open spec fn view(&self) -> Option<Seq<char>> {
        self.prior@
    }
}

/// One entry of a map, by value.
pub type EntryView = (Seq<char>, Option<Seq<char>>);

/// Keys strictly increasing.
pub open spec fn sorted_keys(es: Seq<EntryView>) -> bool {
    forall|i: int, j: int| 0 <= i < j < es.len() ==> key_lt(#[trigger] es[i].0, #[trigger] es[j].0)
}

/// No key occurs twice.
pub open spec fn distinct_keys<V>(es: Seq<(Seq<char>, V)>) -> bool {
    forall|i: int, j: int| 0 <= i < es.len() && 0 <= j < es.len() && i != j ==> #[trigger] es[i].0 != #[trigger] es[j].0
}

/// The map that inserting the entries in order produces (later entries win).
pub open spec fn entries_map<V>(es: Seq<(Seq<char>, V)>) -> Map<Seq<char>, V>
    decreases es.len(),
{
    if es.len() == 0 {
        Map::empty()
    } else {
        entries_map(es.drop_last()).insert(es.last().0, es.last().1)
    }
}

pub proof fn lemma_sorted_distinct(es: Seq<EntryView>)
    requires
        sorted_keys(es),
    ensures
        distinct_keys(es),
{
    assert forall|i: int, j: int| 0 <= i < es.len() && 0 <= j < es.len() && i != j implies #[trigger] es[i].0 != #[trigger] es[j].0 by {
        if i < j {
            assert(key_lt(es[i].0, es[j].0));
            lemma_key_lt_irreflexive(es[i].0);
        } else {
            assert(key_lt(es[j].0, es[i].0));
            lemma_key_lt_irreflexive(es[j].0);
        }
    }
}

pub proof fn lemma_entries_map_dom<V>(es: Seq<(Seq<char>, V)>, k: Seq<char>)
    ensures
        entries_map(es).contains_key(k) <==> exists|i: int| 0 <= i < es.len() && #[trigger] es[i].0 == k,
    decreases es.len(),
{
    if es.len() > 0 {
        lemma_entries_map_dom(es.drop_last(), k);
        if entries_map(es).contains_key(k) {
            if k == es.last().0 {
                assert(es[es.len() - 1].0 == k);
            } else {
                let i = choose|i: int| 0 <= i < es.drop_last().len() && #[trigger] es.drop_last()[i].0 == k;
                assert(es[i].0 == k);
            }
        }
        if exists|i: int| 0 <= i < es.len() && #[trigger] es[i].0 == k {
            let i = choose|i: int| 0 <= i < es.len() && #[trigger] es[i].0 == k;
            if i < es.len() - 1 {
                assert(es.drop_last()[i].0 == k);
            }
        }
    }
}

pub proof fn lemma_entries_map_value<V>(es: Seq<(Seq<char>, V)>, i: int)
    requires
        distinct_keys(es),
        0 <= i < es.len(),
    ensures
        entries_map(es).contains_key(es[i].0),
        entries_map(es)[es[i].0] == es[i].1,
    decreases es.len(),
{
    lemma_entries_map_dom(es, es[i].0);
    if i < es.len() - 1 {
        let d = es.drop_last();
        assert(distinct_keys(d)) by {
            assert forall|a: int, b: int| 0 <= a < d.len() && 0 <= b < d.len() && a != b implies #[trigger] d[a].0 != #[trigger] d[b].0 by {
                assert(d[a] == es[a] && d[b] == es[b]);
            }
        }
        assert(d[i] == es[i]);
        lemma_entries_map_value(d, i);
        assert(es[i].0 != es[es.len() - 1].0);
    }
}

/// The managed variables, sorted by key.
#[derive(Debug, Clone, PartialEq, Eq)]
pub struct ManagedMap {
    entries: Vec<(String, ManagedVar)>,
}

impl View for ManagedMap {
    type V = Map<Seq<char>, Option<Seq<char>>>;

    closed spec fn view(&self) -> Map<Seq<char>, Option<Seq<char>>> {
        entries_map(self.entry_seq())
    }
}

impl ManagedMap {
    /// The entries in iteration (ascending key) order.
    pub closed spec fn entry_seq(&self) -> Seq<EntryView> {
        self.entries@.map_values(|e: (String, ManagedVar)| (e.0@, e.1@))
    }

    /// Entries are sorted strictly by key.
    pub closed spec fn wf(&self) -> bool {
        sorted_keys(self.entry_seq())
    }

    /// What `wf` gives a caller: the entries are sorted, have distinct
    /// keys, and the view is the map they spell.
    pub proof fn lemma_wf(&self)
        requires
            self.wf(),
        ensures
            sorted_keys(self.entry_seq()),
            distinct_keys(self.entry_seq()),
            self@ == entries_map(self.entry_seq()),
    {
        lemma_sorted_distinct(self.entry_seq());
    }

    pub fn new() -> (m: ManagedMap)
        ensures
            m.wf(),
            m@ == Map::<Seq<char>, Option<Seq<char>>>::empty(),
            m.entry_seq().len() == 0,
    {
        let m = ManagedMap { entries: Vec::new() };
        assert(m.entry_seq() =~= Seq::<EntryView>::empty());
        m
    }

    pub fn len(&self) -> (n: usize)
        requires
            self.wf(),
        ensures
            n == self.entry_seq().len(),
            n == self@.len(),
    {
        proof {
            self.lemma_wf();
            lemma_entries_map_len(self.entry_seq());
        }
        self.entries.len()
    }

    pub fn is_empty(&self) -> (b: bool)
        requires
            self.wf(),
        ensures
            b == (self.entry_seq().len() == 0),
            b == (self@ == Map::<Seq<char>, Option<Seq<char>>>::empty()),
    {
        proof {
            self.lemma_wf();
            lemma_entries_map_len(self.entry_seq());
            if self.entry_seq().len() > 0 {
                lemma_entries_map_value(self.entry_seq(), 0);
            }
        }
        self.entries.len() == 0
    }

    /// The `i`-th entry in ascending key order.
    pub fn entry(&self, i: usize) -> (r: (&String, &ManagedVar))
        requires
            i < self.entry_seq().len(),
        ensures
            (r.0@, r.1@) == self.entry_seq()[i as int],
    {
        let e = &self.entries[i];
        (&e.0, &e.1)
    }

    /// Looks a key up.
    pub fn get(&self, key: &str) -> (r: Option<&ManagedVar>)
        requires
            self.wf(),
        ensures
            r is Some <==> self@.contains_key(key@),
            r matches Some(m) ==> m@ == self@[key@],
    {
        proof {
            self.lemma_wf();
            lemma_entries_map_dom(self.entry_seq(), key@);
        }
        let mut i: usize = 0;
        while i < self.entries.len()
            invariant
                self.wf(),
                distinct_keys(self.entry_seq()),
                i <= self.entries.len(),
                forall|j: int| 0 <= j < i ==> #[trigger] self.entry_seq()[j].0 != key@,
            decreases self.entries.len() - i,
        {
            let e = &self.entries[i];
            if str_eq(e.0.as_str(), key) {
                proof {
                    assert(self.entry_seq()[i as int].0 == key@);
                    lemma_entries_map_value(self.entry_seq(), i as int);
                }
                return Some(&e.1);
            }
            i = i + 1;
        }
        None
    }

    /// Inserts or replaces the entry for `key`, keeping the order.
    pub fn insert(&mut self, key: String, var: ManagedVar)
        requires
            old(self).wf(),
        ensures
            final(self).wf(),
            final(self)@ == old(self)@.insert(key@, var@),
    {
        let ghost es = self.entry_seq();
        proof {
            lemma_sorted_distinct(es);
        }
        let mut i: usize = 0;
        while i < self.entries.len() && key_less(self.entries[i].0.as_str(), key.as_str())
            invariant
                self.entry_seq() == es,
                sorted_keys(es),
                i <= self.entries.len(),
                forall|j: int| 0 <= j < i ==> key_lt(#[trigger] es[j].0, key@),
            decreases self.entries.len() - i,
        {
            i = i + 1;
        }
        let ghost kv: EntryView = (key@, var@);
        if i < self.entries.len() && str_eq(self.entries[i].0.as_str(), key.as_str()) {
            self.entries.set(i, (key, var));
            proof {
                let ns = self.entry_seq();
                assert(ns =~= es.update(i as int, kv));
                assert(sorted_keys(ns)) by {
                    assert forall|a: int, b: int| 0 <= a < b < ns.len() implies key_lt(#[trigger] ns[a].0, #[trigger] ns[b].0) by {
                        assert(ns[a].0 == es[a].0 && ns[b].0 == es[b].0);
                    }
                }
                lemma_sorted_distinct(ns);
                assert forall|k: Seq<char>| #[trigger] entries_map(ns).contains_key(k) <==> entries_map(es).insert(kv.0, kv.1).contains_key(k) by {
                    lemma_entries_map_dom(ns, k);
                    lemma_entries_map_dom(es, k);
                    assert(ns[i as int] == kv);
                    if k == kv.0 {
                        assert(ns[i as int].0 == k);
                    }
                    if k != kv.0 && entries_map(es).contains_key(k) {
                        let j = choose|j: int| 0 <= j < es.len() && #[trigger] es[j].0 == k;
                        assert(ns[j].0 == k);
                    }
                    if entries_map(ns).contains_key(k) {
                        let j = choose|j: int| 0 <= j < ns.len() && #[trigger] ns[j].0 == k;
                        assert(es[j].0 == k);
                    }
                }
                assert forall|k: Seq<char>| #[trigger] entries_map(ns).contains_key(k) implies entries_map(ns)[k] == entries_map(es).insert(kv.0, kv.1)[k] by {
                    lemma_entries_map_dom(ns, k);
                    let j = choose|j: int| 0 <= j < ns.len() && #[trigger] ns[j].0 == k;
                    lemma_entries_map_value(ns, j);
                    assert(ns[i as int] == kv);
                    if j != i {
                        assert(es[j] == ns[j]);
                        lemma_entries_map_value(es, j);
                    } else {
                        assert(k == kv.0);
                    }
                }
                assert(entries_map(ns) =~= entries_map(es).insert(kv.0, kv.1));
            }
        } else {
            proof {
                if i < es.len() {
                    lemma_key_lt_total(es[i as int].0, key@);
                }
            }
            self.entries.insert(i, (key, var));
            proof {
                let ns = self.entry_seq();
                assert(ns =~= es.insert(i as int, kv));
                assert(sorted_keys(ns)) by {
                    assert forall|a: int, b: int| 0 <= a < b < ns.len() implies key_lt(#[trigger] ns[a].0, #[trigger] ns[b].0) by {
                        if b < i {
                            assert(ns[a] == es[a] && ns[b] == es[b]);
                        } else if b == i {
                            assert(ns[a] == es[a]);
                        } else if a == i {
                            assert(ns[b] == es[b - 1]);
                            if b - 1 > i {
                                lemma_key_lt_transitive(key@, es[i as int].0, es[b - 1].0);
                            }
                        } else if a < i {
                            assert(ns[a] == es[a] && ns[b] == es[b - 1]);
                        } else {
                            assert(ns[a] == es[a - 1] && ns[b] == es[b - 1]);
                        }
                    }
                }
                lemma_sorted_distinct(ns);
                assert forall|k: Seq<char>| #[trigger] entries_map(ns).contains_key(k) <==> entries_map(es).insert(kv.0, kv.1).contains_key(k) by {
                    lemma_entries_map_dom(ns, k);
                    lemma_entries_map_dom(es, k);
                    if k != kv.0 && entries_map(es).contains_key(k) {
                        let j = choose|j: int| 0 <= j < es.len() && #[trigger] es[j].0 == k;
                        if j < i {
                            assert(ns[j].0 == k);
                        } else {
                            assert(ns[j + 1].0 == k);
                        }
                    }
                    if k == kv.0 {
                        assert(ns[i as int].0 == k);
                    }
                    if entries_map(ns).contains_key(k) && k != kv.0 {
                        let j = choose|j: int| 0 <= j < ns.len() && #[trigger] ns[j].0 == k;
                        if j < i {
                            assert(es[j].0 == k);
                        } else {
                            assert(es[j - 1].0 == k);
                        }
                    }
                }
                assert forall|k: Seq<char>| #[trigger] entries_map(ns).contains_key(k) implies entries_map(ns)[k] == entries_map(es).insert(kv.0, kv.1)[k] by {
                    lemma_entries_map_dom(ns, k);
                    let j = choose|j: int| 0 <= j < ns.len() && #[trigger] ns[j].0 == k;
                    lemma_entries_map_value(ns, j);
                    assert(ns[i as int] == kv);
                    if j < i {
                        assert(es[j] == ns[j]);
                        lemma_entries_map_value(es, j);
                    } else if j > i {
                        assert(es[j - 1] == ns[j]);
                        lemma_entries_map_value(es, j - 1);
                    }
                }
                assert(entries_map(ns) =~= entries_map(es).insert(kv.0, kv.1));
            }
        }
    }
}

impl ManagedMap {
    /// Appends an entry whose key is greater than every key present.
    pub fn push_greatest(&mut self, key: String, var: ManagedVar)
        requires
            old(self).wf(),
            forall|i: int| 0 <= i < old(self).entry_seq().len() ==> key_lt(#[trigger] old(self).entry_seq()[i].0, key@),
        ensures
            final(self).wf(),
            final(self).entry_seq() == old(self).entry_seq().push((key@, var@)),
    {
        let ghost es = self.entry_seq();
        self.entries.push((key, var));
        proof {
            let ns = self.entry_seq();
            assert(ns =~= es.push((key@, var@)));
            assert forall|a: int, b: int| 0 <= a < b < ns.len() implies key_lt(#[trigger] ns[a].0, #[trigger] ns[b].0) by {
                assert(ns[a] == es[a]);
                if b < es.len() {
                    assert(ns[b] == es[b]);
                }
            }
        }
    }
}

pub proof fn lemma_entries_map_len(es: Seq<EntryView>)
    requires
        distinct_keys(es),
    ensures
        entries_map(es).len() == es.len(),
        entries_map(es).dom().finite(),
    decreases es.len(),
{
    if es.len() > 0 {
        let d = es.drop_last();
        assert(distinct_keys(d)) by {
            assert forall|a: int, b: int| 0 <= a < d.len() && 0 <= b < d.len() && a != b implies #[trigger] d[a].0 != #[trigger] d[b].0 by {
                assert(d[a] == es[a] && d[b] == es[b]);
            }
        }
        lemma_entries_map_len(d);
        lemma_entries_map_dom(d, es.last().0);
        if entries_map(d).contains_key(es.last().0) {
            let j = choose|j: int| 0 <= j < d.len() && #[trigger] d[j].0 == es.last().0;
            assert(es[j].0 == es[es.len() - 1].0);
        }
    }
}

} // verus!
