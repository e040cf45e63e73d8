//! Folding root-first `.env` layers into one map: closer layers override
//! farther ones key by key, and every non-conflicting key survives.
use vstd::prelude::*;
use indexmap::IndexMap;
use crate::envmap::{VarPairs, index_map_entries, lookup, pairs_insert, map_new, map_insert, map_len, map_get_index, map_contains_key};
use crate::keymap::{entries_map, distinct_keys, lemma_entries_map_dom, lemma_entries_map_value};

verus! {

/// One parsed `.env` file and where it came from.
pub struct EnvLayer {
    pub source: String,
    pub vars: IndexMap<String, String>,
}

/// The variables of each layer, in layer order.
pub open spec fn layer_pairs(layers: Seq<EnvLayer>) -> Seq<VarPairs> {
    layers.map_values(|l: EnvLayer| index_map_entries(l.vars))
}

/// Inserting the pairs one after another, as `IndexMap::insert` does.
pub open spec fn insert_all(acc: VarPairs, es: VarPairs) -> VarPairs
    decreases es.len(),
{
    if es.len() == 0 {
        acc
    } else {
        pairs_insert(insert_all(acc, es.drop_last()), es.last().0, es.last().1)
    }
}

/// The merged map's entries: every layer's pairs inserted in order.
pub open spec fn merged_pairs(layers: Seq<VarPairs>) -> VarPairs
    decreases layers.len(),
{
    if layers.len() == 0 {
        Seq::empty()
    } else {
        insert_all(merged_pairs(layers.drop_last()), layers.last())
    }
}

/// The value the closest (last) layer that defines `k` gives it.
pub open spec fn layered_lookup(layers: Seq<VarPairs>, k: Seq<char>) -> Option<Seq<char>>
    decreases layers.len(),
{
    if layers.len() == 0 {
        None
    } else if lookup(layers.last(), k) is Some {
        lookup(layers.last(), k)
    } else {
        layered_lookup(layers.drop_last(), k)
    }
}

/// The index of the closest (last) layer that defines `k`.
pub open spec fn defining_layer(layers: Seq<VarPairs>, k: Seq<char>) -> Option<int>
    decreases layers.len(),
{
    if layers.len() == 0 {
        None
    } else if lookup(layers.last(), k) is Some {
        Some(layers.len() - 1)
    } else {
        defining_layer(layers.drop_last(), k)
    }
}

fn clone_string(s: &String) -> (r: String)
    ensures
        r@ == s@,
{
    s.clone()
}

/// Folds root-first layers into a single map; later (closer-to-cwd)
/// layers override earlier (parent) layers key-by-key.
pub fn merge_layers(layers: &[EnvLayer]) -> (out: IndexMap<String, String>)
    ensures
        index_map_entries(out) == merged_pairs(layer_pairs(layers@)),
{
    let ghost ls = layer_pairs(layers@);
    let mut out = map_new();
    let mut i: usize = 0;
    while i < layers.len()
        invariant
            ls == layer_pairs(layers@),
            i <= layers.len(),
            index_map_entries(out) == merged_pairs(ls.take(i as int)),
        decreases layers.len() - i,
    {
        let layer = &layers[i];
        let ghost before = index_map_entries(out);
        let ghost es = index_map_entries(layer.vars);
        let n = map_len(&layer.vars);
        let mut j: usize = 0;
        while j < n
            invariant
                n == es.len(),
                es == index_map_entries(layer.vars),
                j <= n,
                index_map_entries(out) == insert_all(before, es.take(j as int)),
            decreases n - j,
        {
            match map_get_index(&layer.vars, j) {
                Some((k, v)) => {
                    map_insert(&mut out, clone_string(k), clone_string(v));
                },
                None => {},
            }
            proof {
                assert(es.take(j + 1).drop_last() =~= es.take(j as int));
                assert(es.take(j + 1).last() == es[j as int]);
            }
            j = j + 1;
        }
        proof {
            assert(es.take(n as int) =~= es);
            assert(ls.take(i + 1).drop_last() =~= ls.take(i as int));
            assert(ls.take(i + 1).last() == ls[i as int]);
            assert(ls[i as int] == es);
        }
        i = i + 1;
    }
    assert(ls.take(layers.len() as int) =~= ls);
    out
}

/// Which layer a resolved key's value came from: the closest (last, since
/// layers are root-first) layer that defines it.
pub fn origin_of<'a>(layers: &'a [EnvLayer], key: &str) -> (r: Option<&'a str>)
    ensures
        match defining_layer(layer_pairs(layers@), key@) {
            None => r is None,
            Some(j) => r matches Some(s) && s@ == layers@[j].source@,
        },
{
    let ghost ls = layer_pairs(layers@);
    let mut i: usize = layers.len();
    assert(ls.take(i as int) =~= ls);
    while i > 0
        invariant
            ls == layer_pairs(layers@),
            i <= layers.len(),
            defining_layer(ls, key@) == defining_layer(ls.take(i as int), key@),
        decreases i,
    {
        let layer = &layers[i - 1];
        proof {
            let t = ls.take(i as int);
            assert(t.last() == ls[i - 1]);
            assert(t.drop_last() =~= ls.take(i - 1));
        }
        if map_contains_key(&layer.vars, key) {
            return Some(layer.source.as_str());
        }
        i = i - 1;
    }
    None
}

// --- laws -------------------------------------------------------------------

proof fn lemma_insert_distinct(es: VarPairs, k: Seq<char>, v: Seq<char>)
    requires
        distinct_keys(es),
    ensures
        distinct_keys(pairs_insert(es, k, v)),
        forall|k2: Seq<char>| #[trigger] lookup(pairs_insert(es, k, v), k2) == if k2 == k { Some(v) } else { lookup(es, k2) },
{
    let ns = pairs_insert(es, k, v);
    if exists|i: int| 0 <= i < es.len() && #[trigger] es[i].0 == k {
        let i = choose|i: int| 0 <= i < es.len() && #[trigger] es[i].0 == k;
        assert(ns == es.update(i, (k, v)));
        assert(distinct_keys(ns)) by {
            assert forall|a: int, b: int| 0 <= a < ns.len() && 0 <= b < ns.len() && a != b implies #[trigger] ns[a].0 != #[trigger] ns[b].0 by {
                assert(ns[a].0 == es[a].0 && ns[b].0 == es[b].0);
            }
        }
        assert forall|k2: Seq<char>| #[trigger] lookup(ns, k2) == if k2 == k { Some(v) } else { lookup(es, k2) } by {
            lemma_entries_map_dom(ns, k2);
            lemma_entries_map_dom(es, k2);
            if entries_map(ns).contains_key(k2) {
                let j = choose|j: int| 0 <= j < ns.len() && #[trigger] ns[j].0 == k2;
                lemma_entries_map_value(ns, j);
                assert(es[j].0 == k2);
                if j != i {
                    lemma_entries_map_value(es, j);
                }
            }
            if entries_map(es).contains_key(k2) {
                let j = choose|j: int| 0 <= j < es.len() && #[trigger] es[j].0 == k2;
                assert(ns[j].0 == k2);
            }
            if k2 == k {
                assert(ns[i].0 == k);
                lemma_entries_map_value(ns, i);
            }
        }
    } else {
        assert(ns == es.push((k, v)));
        assert(distinct_keys(ns)) by {
            assert forall|a: int, b: int| 0 <= a < ns.len() && 0 <= b < ns.len() && a != b implies #[trigger] ns[a].0 != #[trigger] ns[b].0 by {
                if a < es.len() && b < es.len() {
                    assert(ns[a] == es[a] && ns[b] == es[b]);
                } else if a < es.len() {
                    assert(ns[a] == es[a]);
                } else {
                    assert(ns[b] == es[b]);
                }
            }
        }
        assert forall|k2: Seq<char>| #[trigger] lookup(ns, k2) == if k2 == k { Some(v) } else { lookup(es, k2) } by {
            crate::envmap::lemma_lookup_push(es, (k, v), k2);
        }
    }
}

proof fn lemma_insert_all(acc: VarPairs, es: VarPairs)
    requires
        distinct_keys(acc),
    ensures
        distinct_keys(insert_all(acc, es)),
        forall|k: Seq<char>| #[trigger] lookup(insert_all(acc, es), k) == if lookup(es, k) is Some { lookup(es, k) } else { lookup(acc, k) },
    decreases es.len(),
{
    if es.len() > 0 {
        let d = es.drop_last();
        lemma_insert_all(acc, d);
        lemma_insert_distinct(insert_all(acc, d), es.last().0, es.last().1);
        assert forall|k: Seq<char>| #[trigger] lookup(es, k) == if k == es.last().0 { Some(es.last().1) } else { lookup(d, k) } by {
            crate::envmap::lemma_lookup_push(d, es.last(), k);
            assert(d.push(es.last()) =~= es);
        }
    }
}

/// Child overrides parent: the merged map gives every key the value of the
/// closest layer that defines it, and holds no key that no layer defines --
/// so non-conflicting keys from every layer survive.
pub proof fn law_merge_closest_layer_wins(layers: Seq<VarPairs>, k: Seq<char>)
    ensures
        lookup(merged_pairs(layers), k) == layered_lookup(layers, k),
        distinct_keys(merged_pairs(layers)),
    decreases layers.len(),
{
    if layers.len() > 0 {
        law_merge_closest_layer_wins(layers.drop_last(), k);
        lemma_insert_all(merged_pairs(layers.drop_last()), layers.last());
    } else {
        assert(entries_map(Seq::<(Seq<char>, Seq<char>)>::empty()) =~= Map::empty());
    }
}

/// `origin_of` names the layer whose value the merge kept: the defining
/// layer exists exactly when the merged map holds the key, and that layer's
/// value is the merged value.
pub proof fn law_origin_matches_merge(layers: Seq<VarPairs>, k: Seq<char>)
    ensures
        defining_layer(layers, k) is Some <==> lookup(merged_pairs(layers), k) is Some,
        defining_layer(layers, k) matches Some(j) ==> 0 <= j < layers.len() && lookup(layers[j], k) == lookup(merged_pairs(layers), k),
    decreases layers.len(),
{
    law_merge_closest_layer_wins(layers, k);
    if layers.len() > 0 {
        law_origin_matches_merge(layers.drop_last(), k);
        law_merge_closest_layer_wins(layers.drop_last(), k);
        if lookup(layers.last(), k) is None {
            if defining_layer(layers, k) is Some {
                let j = defining_layer(layers.drop_last(), k)->0;
                assert(layers.drop_last()[j] == layers[j]);
            }
        }
    }
}

/// The keys of pairs, in order.
pub open spec fn pair_keys(es: VarPairs) -> Seq<Seq<char>> {
    es.map_values(|e: (Seq<char>, Seq<char>)| e.0)
}

/// Each key once, in the order of its first appearance.
pub open spec fn first_appearances(ks: Seq<Seq<char>>) -> Seq<Seq<char>>
    decreases ks.len(),
{
    if ks.len() == 0 {
        Seq::empty()
    } else {
        let d = first_appearances(ks.drop_last());
        if d.contains(ks.last()) {
            d
        } else {
            d.push(ks.last())
        }
    }
}

/// Every layer's keys, root layer first.
pub open spec fn all_keys(layers: Seq<VarPairs>) -> Seq<Seq<char>>
    decreases layers.len(),
{
    if layers.len() == 0 {
        Seq::empty()
    } else {
        all_keys(layers.drop_last()) + pair_keys(layers.last())
    }
}

proof fn lemma_pairs_insert_keys(acc: VarPairs, k: Seq<char>, v: Seq<char>)
    ensures
        pair_keys(pairs_insert(acc, k, v)) == if pair_keys(acc).contains(k) {
            pair_keys(acc)
        } else {
            pair_keys(acc).push(k)
        },
{
    let pk = pair_keys(acc);
    if exists|i: int| 0 <= i < acc.len() && #[trigger] acc[i].0 == k {
        let i = choose|i: int| 0 <= i < acc.len() && #[trigger] acc[i].0 == k;
        assert(pk[i] == k);
        assert(pk.contains(k));
        assert(pair_keys(acc.update(i, (k, v))) =~= pk);
    } else {
        assert(!pk.contains(k)) by {
            if pk.contains(k) {
                let j = choose|j: int| 0 <= j < pk.len() && pk[j] == k;
                assert(acc[j].0 == k);
            }
        }
        assert(pair_keys(acc.push((k, v))) =~= pk.push(k));
    }
}

proof fn lemma_insert_all_keys(acc: VarPairs, es: VarPairs, ks: Seq<Seq<char>>)
    requires
        pair_keys(acc) == first_appearances(ks),
    ensures
        pair_keys(insert_all(acc, es)) == first_appearances(ks + pair_keys(es)),
    decreases es.len(),
{
    if es.len() == 0 {
        assert(ks + pair_keys(es) =~= ks);
    } else {
        let d = es.drop_last();
        lemma_insert_all_keys(acc, d, ks);
        lemma_pairs_insert_keys(insert_all(acc, d), es.last().0, es.last().1);
        let all = ks + pair_keys(es);
        assert(all.drop_last() =~= ks + pair_keys(d));
        assert(all.last() == es.last().0);
    }
}

/// The merged map's keys are every layer's keys, each once, in order of
/// first appearance scanning the layers root first; and each key's value
/// is the one the closest (child-most) layer defining it gives.
pub proof fn law_merge_first_appearance_order(layers: Seq<VarPairs>, k: Seq<char>)
    ensures
        pair_keys(merged_pairs(layers)) == first_appearances(all_keys(layers)),
        lookup(merged_pairs(layers), k) == layered_lookup(layers, k),
    decreases layers.len(),
{
    law_merge_closest_layer_wins(layers, k);
    if layers.len() == 0 {
        assert(pair_keys(Seq::<(Seq<char>, Seq<char>)>::empty()) =~= Seq::<Seq<char>>::empty());
    } else {
        law_merge_first_appearance_order(layers.drop_last(), k);
        lemma_insert_all_keys(merged_pairs(layers.drop_last()), layers.last(), all_keys(layers.drop_last()));
    }
}

} // verus!
