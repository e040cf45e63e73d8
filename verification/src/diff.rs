//! Computing the shell operations that move the environment from what
//! easyenv previously set to the freshly merged target.
use vstd::prelude::*;
use indexmap::IndexMap;
use crate::envmap::{VarPairs, index_map_entries, lookup, lemma_lookup_push, map_len, map_get_index, map_get, map_contains_key};
use crate::keymap::{EntryView, ManagedMap, ManagedVar, PriorValue, entries_map, distinct_keys};
use crate::state::EasyenvState;

verus! {

#[derive(Debug, Clone, PartialEq, Eq)]
pub enum Op {
    Export(String, String),
    Unset(String),
}

/// An operation by value.
pub enum OpView {
    Export(Seq<char>, Seq<char>),
    Unset(Seq<char>),
}

impl View for Op {
    type V = OpView;

    open spec fn view(&self) -> OpView {
        match self {
            Op::Export(k, v) => OpView::Export(k@, v@),
            Op::Unset(k) => OpView::Unset(k@),
        }
    }
}

pub open spec fn ops_view(ops: Seq<Op>) -> Seq<OpView> {
    ops.map_values(|o: Op| o@)
}

/// One `export` per target entry whose value the shell does not already
/// hold, in target order.
pub open spec fn export_ops(t: VarPairs, snap: VarPairs) -> Seq<OpView>
    decreases t.len(),
{
    if t.len() == 0 {
        Seq::empty()
    } else {
        export_ops(t.drop_last(), snap) + if lookup(snap, t.last().0) == Some(t.last().1) {
            Seq::empty()
        } else {
            seq![OpView::Export(t.last().0, t.last().1)]
        }
    }
}

/// Restores a managed key to the value it had before easyenv touched it.
pub open spec fn restore_op(e: EntryView) -> OpView {
    match e.1 {
        Some(v) => OpView::Export(e.0, v),
        None => OpView::Unset(e.0),
    }
}

/// One restore per managed entry (in managed order) whose key left the
/// target.
pub open spec fn restore_ops(m: Seq<EntryView>, t: VarPairs) -> Seq<OpView>
    decreases m.len(),
{
    if m.len() == 0 {
        Seq::empty()
    } else {
        restore_ops(m.drop_last(), t) + if lookup(t, m.last().0) is Some {
            Seq::empty()
        } else {
            seq![restore_op(m.last())]
        }
    }
}

/// The prior value carried for a target key: the one already remembered,
/// or else what the shell holds now.
pub open spec fn carried_prior(managed: Map<Seq<char>, Option<Seq<char>>>, snap: VarPairs, k: Seq<char>) -> Option<Seq<char>> {
    if managed.contains_key(k) {
        managed[k]
    } else {
        lookup(snap, k)
    }
}

/// The managed map after the diff: exactly the target's keys, each with
/// its carried prior value.
pub open spec fn new_managed_view(t: VarPairs, managed: Map<Seq<char>, Option<Seq<char>>>, snap: VarPairs) -> Map<Seq<char>, Option<Seq<char>>> {
    Map::new(|k: Seq<char>| lookup(t, k) is Some, |k: Seq<char>| carried_prior(managed, snap, k))
}

fn clone_string(s: &String) -> (r: String)
    ensures
        r@ == s@,
{
    s.clone()
}

/// Computes the shell operations needed to move from `prev` (what easyenv
/// previously set) to `target` (the merged `.env` layers for the new cwd),
/// given `current_shell_snapshot` (the shell's values for every key that is
/// managed or about to be).
pub fn compute_diff(
    prev: &EasyenvState,
    current_shell_snapshot: &IndexMap<String, String>,
    target: &IndexMap<String, String>,
) -> (r: (Vec<Op>, ManagedMap))
    requires
        prev.managed.wf(),
    ensures
        ops_view(r.0@) == export_ops(index_map_entries(*target), index_map_entries(*current_shell_snapshot))
            + restore_ops(prev.managed.entry_seq(), index_map_entries(*target)),
        r.1.wf(),
        r.1@ == new_managed_view(index_map_entries(*target), prev.managed@, index_map_entries(*current_shell_snapshot)),
{
    let ghost t = index_map_entries(*target);
    let ghost snap = index_map_entries(*current_shell_snapshot);
    let ghost mview = prev.managed@;
    let mut ops: Vec<Op> = Vec::new();
    let mut new_managed = ManagedMap::new();
    let n = map_len(target);
    let mut i: usize = 0;
    while i < n
        invariant
            n == t.len(),
            t == index_map_entries(*target),
            snap == index_map_entries(*current_shell_snapshot),
            mview == prev.managed@,
            prev.managed.wf(),
            i <= n,
            new_managed.wf(),
            ops_view(ops@) == export_ops(t.take(i as int), snap),
            new_managed@ == new_managed_view(t.take(i as int), mview, snap),
        decreases n - i,
    {
        let (k, v) = match map_get_index(target, i) {
            Some(kv) => kv,
            None => {
                return (ops, new_managed);
            },
        };
        let prior = match prev.managed.get(k.as_str()) {
            Some(m) => m.prior.clone_value(),
            None => match map_get(current_shell_snapshot, k.as_str()) {
                Some(existing) => PriorValue::SetTo(clone_string(existing)),
                None => PriorValue::Unset,
            },
        };
        let already = match map_get(current_shell_snapshot, k.as_str()) {
            Some(existing) => crate::text::str_eq(existing.as_str(), v.as_str()),
            None => false,
        };
        let ghost old_ops = ops@;
        if !already {
            ops.push(Op::Export(clone_string(k), clone_string(v)));
        }
        new_managed.insert(clone_string(k), ManagedVar { prior });
        proof {
            let tk = t.take(i + 1);
            assert(tk.drop_last() =~= t.take(i as int));
            assert(tk.last() == t[i as int]);
            assert(already <==> lookup(snap, t[i as int].0) == Some(t[i as int].1));
            assert(ops_view(ops@) =~= ops_view(old_ops) + if already {
                Seq::<OpView>::empty()
            } else {
                seq![OpView::Export(t[i as int].0, t[i as int].1)]
            });
            assert(ops_view(ops@) =~= export_ops(tk, snap));
            assert forall|key: Seq<char>| #[trigger] lookup(tk, key) == if key == t[i as int].0 { Some(t[i as int].1) } else { lookup(t.take(i as int), key) } by {
                lemma_lookup_push(t.take(i as int), t[i as int], key);
                assert(t.take(i as int).push(t[i as int]) =~= tk);
            }
            assert(new_managed@ =~= new_managed_view(tk, mview, snap));
        }
        i = i + 1;
    }
    assert(t.take(n as int) =~= t);
    let ghost mes = prev.managed.entry_seq();
    let m = prev.managed.len();
    let mut j: usize = 0;
    while j < m
        invariant
            m == mes.len(),
            mes == prev.managed.entry_seq(),
            t == index_map_entries(*target),
            j <= m,
            ops_view(ops@) == export_ops(t, snap) + restore_ops(mes.take(j as int), t),
        decreases m - j,
    {
        let (k, mv) = prev.managed.entry(j);
        let ghost old_ops = ops@;
        let present = map_contains_key(target, k.as_str());
        if !present {
            match &mv.prior {
                PriorValue::SetTo(orig) => ops.push(Op::Export(clone_string(k), clone_string(orig))),
                PriorValue::Unset => ops.push(Op::Unset(clone_string(k))),
            }
        }
        proof {
            let mk = mes.take(j + 1);
            assert(mk.drop_last() =~= mes.take(j as int));
            assert(mk.last() == mes[j as int]);
            assert(ops_view(ops@) =~= ops_view(old_ops) + if present {
                Seq::<OpView>::empty()
            } else {
                seq![restore_op(mes[j as int])]
            });
            assert(ops_view(ops@) =~= export_ops(t, snap) + restore_ops(mk, t));
        }
        j = j + 1;
    }
    assert(mes.take(m as int) =~= mes);
    (ops, new_managed)
}


// --- the laws of the diff --------------------------------------------------

/// A shell environment, by value.
pub type Env = Map<Seq<char>, Seq<char>>;

pub open spec fn env_get(env: Env, k: Seq<char>) -> Option<Seq<char>> {
    if env.contains_key(k) {
        Some(env[k])
    } else {
        None
    }
}

/// What the shell does with one statement.
pub open spec fn apply_op(env: Env, op: OpView) -> Env {
    match op {
        OpView::Export(k, v) => env.insert(k, v),
        OpView::Unset(k) => env.remove(k),
    }
}

/// What the shell does with the statements, in order.
pub open spec fn apply_ops(env: Env, ops: Seq<OpView>) -> Env
    decreases ops.len(),
{
    if ops.len() == 0 {
        env
    } else {
        apply_op(apply_ops(env, ops.drop_last()), ops.last())
    }
}

/// Every managed key remembers the value the variable had before easyenv
/// touched it (`orig`), and every unmanaged key still has that value.
pub open spec fn tracks_original(managed: Map<Seq<char>, Option<Seq<char>>>, env: Env, orig: Env) -> bool {
    forall|k: Seq<char>| {
        &&& #[trigger] managed.contains_key(k) ==> managed[k] == env_get(orig, k)
        &&& !managed.contains_key(k) ==> env_get(env, k) == env_get(orig, k)
    }
}

/// The snapshot shows the shell's value of every key that is managed or
/// in the target.
pub open spec fn snapshot_of(snap: VarPairs, env: Env, t: VarPairs, managed: Map<Seq<char>, Option<Seq<char>>>) -> bool {
    forall|k: Seq<char>| (lookup(t, k) is Some || managed.contains_key(k)) ==> #[trigger] lookup(snap, k) == env_get(env, k)
}

proof fn lemma_apply_concat(env: Env, a: Seq<OpView>, b: Seq<OpView>)
    ensures
        apply_ops(env, a + b) == apply_ops(apply_ops(env, a), b),
    decreases b.len(),
{
    if b.len() == 0 {
        assert(a + b =~= a);
    } else {
        assert((a + b).drop_last() =~= a + b.drop_last());
        assert((a + b).last() == b.last());
        lemma_apply_concat(env, a, b.drop_last());
    }
}

proof fn lemma_lookup_drop_last_distinct(t: VarPairs, k: Seq<char>)
    requires
        t.len() > 0,
        distinct_keys(t),
    ensures
        distinct_keys(t.drop_last()),
        lookup(t, k) == if k == t.last().0 { Some(t.last().1) } else { lookup(t.drop_last(), k) },
        k == t.last().0 ==> lookup(t.drop_last(), k) is None,
{
    let d = t.drop_last();
    assert(distinct_keys(d)) by {
        assert forall|a: int, b: int| 0 <= a < d.len() && 0 <= b < d.len() && a != b implies #[trigger] d[a].0 != #[trigger] d[b].0 by {
            assert(d[a] == t[a] && d[b] == t[b]);
        }
    }
    lemma_lookup_push(d, t.last(), k);
    assert(d.push(t.last()) =~= t);
    if k == t.last().0 {
        crate::keymap::lemma_entries_map_dom(d, k);
        if entries_map(d).contains_key(k) {
            let j = choose|j: int| 0 <= j < d.len() && #[trigger] d[j].0 == k;
            assert(t[j].0 == t[t.len() - 1].0);
        }
    }
}

proof fn lemma_export_effect(env: Env, t: VarPairs, snap: VarPairs, k: Seq<char>)
    requires
        distinct_keys(t),
    ensures
        env_get(apply_ops(env, export_ops(t, snap)), k) == if lookup(t, k) is Some && lookup(snap, k) != lookup(t, k) {
            lookup(t, k)
        } else {
            env_get(env, k)
        },
    decreases t.len(),
{
    if t.len() > 0 {
        let d = t.drop_last();
        lemma_lookup_drop_last_distinct(t, k);
        lemma_export_effect(env, d, snap, k);
        let tail = if lookup(snap, t.last().0) == Some(t.last().1) {
            Seq::<OpView>::empty()
        } else {
            seq![OpView::Export(t.last().0, t.last().1)]
        };
        lemma_apply_concat(env, export_ops(d, snap), tail);
        let mid = apply_ops(env, export_ops(d, snap));
        assert(export_ops(t, snap) == export_ops(d, snap) + tail);
        assert(apply_ops(mid, Seq::<OpView>::empty()) == mid);
        if tail.len() == 1 {
            assert(tail.drop_last() =~= Seq::<OpView>::empty());
            assert(apply_ops(mid, tail) == apply_op(mid, tail.last()));
        } else {
            assert(tail =~= Seq::<OpView>::empty());
        }
    }
}

proof fn lemma_restore_effect(env: Env, m: Seq<EntryView>, t: VarPairs, k: Seq<char>)
    requires
        distinct_keys(m),
    ensures
        env_get(apply_ops(env, restore_ops(m, t)), k) == if entries_map(m).contains_key(k) && lookup(t, k) is None {
            entries_map(m)[k]
        } else {
            env_get(env, k)
        },
    decreases m.len(),
{
    if m.len() > 0 {
        let d = m.drop_last();
        assert(distinct_keys(d)) by {
            assert forall|a: int, b: int| 0 <= a < d.len() && 0 <= b < d.len() && a != b implies #[trigger] d[a].0 != #[trigger] d[b].0 by {
                assert(d[a] == m[a] && d[b] == m[b]);
            }
        }
        lemma_restore_effect(env, d, t, k);
        let tail = if lookup(t, m.last().0) is Some {
            Seq::<OpView>::empty()
        } else {
            seq![restore_op(m.last())]
        };
        lemma_apply_concat(env, restore_ops(d, t), tail);
        let mid = apply_ops(env, restore_ops(d, t));
        assert(restore_ops(m, t) == restore_ops(d, t) + tail);
        assert(apply_ops(mid, Seq::<OpView>::empty()) == mid);
        if tail.len() == 1 {
            assert(tail.drop_last() =~= Seq::<OpView>::empty());
            assert(apply_ops(mid, tail) == apply_op(mid, tail.last()));
        } else {
            assert(tail =~= Seq::<OpView>::empty());
        }
        assert(m.drop_last().push(m.last()) =~= m);
        if k == m.last().0 {
            crate::keymap::lemma_entries_map_dom(d, k);
            if entries_map(d).contains_key(k) {
                let j = choose|j: int| 0 <= j < d.len() && #[trigger] d[j].0 == k;
                assert(m[j].0 == m[m.len() - 1].0);
            }
        }
    }
}

/// What one diff does to the shell: afterwards every target key holds its
/// target value, and the new managed map again remembers, for every key,
/// the value it had before easyenv ever touched it -- so the prior value
/// is captured once and carried forward unchanged through any number of
/// overrides.
pub proof fn law_diff_applies_target_and_keeps_original(
    managed: ManagedMap,
    env: Env,
    orig: Env,
    t: VarPairs,
    snap: VarPairs,
)
    requires
        managed.wf(),
        distinct_keys(t),
        tracks_original(managed@, env, orig),
        snapshot_of(snap, env, t, managed@),
    ensures
        ({
            let after = apply_ops(env, export_ops(t, snap) + restore_ops(managed.entry_seq(), t));
            &&& tracks_original(new_managed_view(t, managed@, snap), after, orig)
            &&& forall|k: Seq<char>| #[trigger] lookup(t, k) is Some ==> env_get(after, k) == lookup(t, k)
        }),
{
    managed.lemma_wf();
    let es = managed.entry_seq();
    let ex = export_ops(t, snap);
    let mid = apply_ops(env, ex);
    let after = apply_ops(env, ex + restore_ops(es, t));
    lemma_apply_concat(env, ex, restore_ops(es, t));
    let nv = new_managed_view(t, managed@, snap);
    assert forall|k: Seq<char>| {
        &&& #[trigger] nv.contains_key(k) ==> nv[k] == env_get(orig, k)
        &&& !nv.contains_key(k) ==> env_get(after, k) == env_get(orig, k)
    } by {
        lemma_export_effect(env, t, snap, k);
        lemma_restore_effect(mid, es, t, k);
        if managed@.contains_key(k) {
            assert(managed@[k] == env_get(orig, k));
        }
    }
    assert forall|k: Seq<char>| #[trigger] lookup(t, k) is Some implies env_get(after, k) == lookup(t, k) by {
        lemma_export_effect(env, t, snap, k);
        lemma_restore_effect(mid, es, t, k);
    }
}

/// Leaving every `.env` (an empty target) puts the whole environment back
/// to what it was before easyenv touched anything, and forgets every key.
pub proof fn law_unload_restores_original(managed: ManagedMap, env: Env, orig: Env, snap: VarPairs)
    requires
        managed.wf(),
        tracks_original(managed@, env, orig),
    ensures
        apply_ops(env, export_ops(Seq::empty(), snap) + restore_ops(managed.entry_seq(), Seq::empty())) == orig,
        new_managed_view(Seq::empty(), managed@, snap) == Map::<Seq<char>, Option<Seq<char>>>::empty(),
{
    let t: VarPairs = Seq::empty();
    let after = apply_ops(env, export_ops(t, snap) + restore_ops(managed.entry_seq(), t));
    managed.lemma_wf();
    let es = managed.entry_seq();
    lemma_apply_concat(env, export_ops(t, snap), restore_ops(es, t));
    assert(export_ops(t, snap) =~= Seq::<OpView>::empty());
    assert forall|k: Seq<char>| #[trigger] env_get(after, k) == env_get(orig, k) by {
        lemma_restore_effect(env, es, t, k);
        if managed@.contains_key(k) {
            assert(managed@[k] == env_get(orig, k));
        }
    }
    assert forall|k: Seq<char>| #[trigger] after.contains_key(k) <==> orig.contains_key(k) by {
        assert(env_get(after, k) == env_get(orig, k));
    }
    assert forall|k: Seq<char>| #[trigger] after.contains_key(k) implies after[k] == orig[k] by {
        assert(env_get(after, k) == env_get(orig, k));
    }
    assert(after =~= orig);
    assert(new_managed_view(t, managed@, snap) =~= Map::<Seq<char>, Option<Seq<char>>>::empty());
}

proof fn lemma_export_ops_empty(t: VarPairs, snap: VarPairs)
    requires
        forall|i: int| 0 <= i < t.len() ==> lookup(snap, #[trigger] t[i].0) == Some(t[i].1),
    ensures
        export_ops(t, snap) == Seq::<OpView>::empty(),
    decreases t.len(),
{
    if t.len() > 0 {
        let d = t.drop_last();
        assert forall|i: int| 0 <= i < d.len() implies lookup(snap, #[trigger] d[i].0) == Some(d[i].1) by {
            assert(d[i] == t[i]);
        }
        lemma_export_ops_empty(d, snap);
        assert(lookup(snap, t[t.len() - 1].0) == Some(t[t.len() - 1].1));
        assert(export_ops(t, snap) =~= Seq::<OpView>::empty());
    }
}

proof fn lemma_restore_ops_empty(m: Seq<EntryView>, t: VarPairs)
    requires
        forall|i: int| 0 <= i < m.len() ==> lookup(t, #[trigger] m[i].0) is Some,
    ensures
        restore_ops(m, t) == Seq::<OpView>::empty(),
    decreases m.len(),
{
    if m.len() > 0 {
        let d = m.drop_last();
        assert forall|i: int| 0 <= i < d.len() implies lookup(t, #[trigger] d[i].0) is Some by {
            assert(d[i] == m[i]);
        }
        lemma_restore_ops_empty(d, t);
        assert(lookup(t, m[m.len() - 1].0) is Some);
        assert(restore_ops(m, t) =~= Seq::<OpView>::empty());
    }
}

/// Re-entering a directory whose variables the shell already holds, with
/// nothing managed outside the target, emits no statement at all.
pub proof fn law_reentry_is_idempotent(managed: ManagedMap, t: VarPairs, snap: VarPairs)
    requires
        managed.wf(),
        forall|i: int| 0 <= i < t.len() ==> lookup(snap, #[trigger] t[i].0) == Some(t[i].1),
        forall|k: Seq<char>| #[trigger] managed@.contains_key(k) ==> lookup(t, k) is Some,
    ensures
        export_ops(t, snap) + restore_ops(managed.entry_seq(), t) == Seq::<OpView>::empty(),
{
    managed.lemma_wf();
    let es = managed.entry_seq();
    assert forall|i: int| 0 <= i < es.len() implies lookup(t, #[trigger] es[i].0) is Some by {
        crate::keymap::lemma_entries_map_value(es, i);
    }
    lemma_export_ops_empty(t, snap);
    lemma_restore_ops_empty(es, t);
    assert(Seq::<OpView>::empty() + Seq::<OpView>::empty() =~= Seq::<OpView>::empty());
}

/// A second diff after the shell applied the first changes nothing: with
/// the shell's values updated by the first diff's statements and the
/// managed map it returned, the second diff emits no statement and
/// returns the same managed map.
pub proof fn law_second_diff_changes_nothing(
    managed: ManagedMap,
    t: VarPairs,
    snap: VarPairs,
    managed2: ManagedMap,
    snap2: VarPairs,
)
    requires
        managed.wf(),
        distinct_keys(t),
        managed2.wf(),
        managed2@ == new_managed_view(t, managed@, snap),
        forall|k: Seq<char>| #[trigger] lookup(snap2, k) == env_get(
            apply_ops(entries_map(snap), export_ops(t, snap) + restore_ops(managed.entry_seq(), t)),
            k,
        ),
    ensures
        export_ops(t, snap2) + restore_ops(managed2.entry_seq(), t) == Seq::<OpView>::empty(),
        new_managed_view(t, managed2@, snap2) == managed2@,
{
    managed.lemma_wf();
    let es = managed.entry_seq();
    let env: Env = entries_map(snap);
    let ex = export_ops(t, snap);
    let re = restore_ops(es, t);
    let mid = apply_ops(env, ex);
    lemma_apply_concat(env, ex, re);
    assert forall|k: Seq<char>| #[trigger] lookup(t, k) is Some implies lookup(snap2, k) == lookup(t, k) by {
        lemma_restore_effect(mid, es, t, k);
        lemma_export_effect(env, t, snap, k);
        assert(env_get(env, k) == lookup(snap, k));
    }
    assert forall|i: int| 0 <= i < t.len() implies lookup(snap2, #[trigger] t[i].0) == Some(t[i].1) by {
        crate::keymap::lemma_entries_map_value(t, i);
        assert(lookup(t, t[i].0) is Some);
    }
    law_reentry_is_idempotent(managed2, t, snap2);
    let nv = new_managed_view(t, managed2@, snap2);
    assert(nv =~= managed2@);
}

} // verus!
