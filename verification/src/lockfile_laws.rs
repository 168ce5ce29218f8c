//! What holds of every graph that a `pnpm-lock.yaml` spells.
use crate::graph::{key_of, lemma_merged_entry, merged, PackageView};
use crate::placement_laws::finite_sets_are_listed;
use crate::pnpm::{
    key_parts, pnpm_graph, pnpm_package, pnpm_packages, spelled_key, spelled_keys, PnpmView,
};
use crate::sorted::listing;
use vstd::prelude::*;

verus! {

proof fn lemma_every_entry_has_a_key(list: Seq<PackageView>, i: int)
    requires
        merged(list) is Some,
        0 <= i < list.len(),
    ensures
        merged(list)->0.dom().contains(key_of(list[i].name, list[i].version)),
    decreases list.len(),
{
    if i < list.len() - 1 {
        lemma_every_entry_has_a_key(list.drop_last(), i);
    }
}

proof fn lemma_entry_of_key(l: PnpmView, keys: Seq<Seq<char>>, i: int) -> (j: int)
    requires
        0 <= i < keys.len(),
        pnpm_package(l, keys[i]) is Some,
    ensures
        0 <= j < pnpm_packages(l, keys).len(),
        pnpm_packages(l, keys)[j] == pnpm_package(l, keys[i])->0,
    decreases keys.len(),
{
    let before = pnpm_packages(l, keys.drop_last());
    if i < keys.len() - 1 {
        lemma_entry_of_key(l, keys.drop_last(), i)
    } else {
        before.len() as int
    }
}

proof fn lemma_key_of_entry(l: PnpmView, keys: Seq<Seq<char>>, j: int) -> (i: int)
    requires
        0 <= j < pnpm_packages(l, keys).len(),
    ensures
        0 <= i < keys.len(),
        pnpm_package(l, keys[i]) == Some(pnpm_packages(l, keys)[j]),
    decreases keys.len(),
{
    let before = pnpm_packages(l, keys.drop_last());
    if j < before.len() {
        lemma_key_of_entry(l, keys.drop_last(), j)
    } else {
        keys.len() - 1
    }
}

proof fn lemma_known_keys_are_packages(l: PnpmView, key: Seq<char>)
    requires
        l.packages.dom().finite(),
        pnpm_graph(l) is Some,
        spelled_keys(l.packages.dom()).contains(key),
    ensures
        pnpm_graph(l)->0.dom().contains(key),
{
    finite_sets_are_listed(l.packages.dom());
    let keys = listing(l.packages.dom());
    let from = choose|from: Seq<char>| #[trigger]
        l.packages.dom().contains(from) && spelled_key(from) == Some(key);
    assert(keys.to_set().contains(from));
    let i = choose|i: int| 0 <= i < keys.len() && keys[i] == from;
    let j = lemma_entry_of_key(l, keys, i);
    lemma_every_entry_has_a_key(pnpm_packages(l, keys), j);
}

/// A name that the lockfile never resolved is no edge: every edge of a package leads to a
/// package of the graph.
pub proof fn every_edge_leads_to_a_package(l: PnpmView, key: Seq<char>, name: Seq<char>)
    requires
        l.packages.dom().finite(),
        pnpm_graph(l) is Some,
        pnpm_graph(l)->0.dom().contains(key),
    ensures
        ({
            let g = pnpm_graph(l)->0;
            &&& g[key].dependencies.dom().contains(name) ==> g.dom().contains(
                g[key].dependencies[name],
            )
            &&& g[key].optional_dependencies.dom().contains(name) ==> g.dom().contains(
                g[key].optional_dependencies[name],
            )
        }),
{
    let g = pnpm_graph(l)->0;
    let keys = listing(l.packages.dom());
    let list = pnpm_packages(l, keys);
    let j = lemma_merged_entry(list, key);
    let i = lemma_key_of_entry(l, keys, j);
    assert(key_parts(keys[i]) is Some);
    if g[key].dependencies.dom().contains(name) {
        lemma_known_keys_are_packages(l, g[key].dependencies[name]);
    }
    if g[key].optional_dependencies.dom().contains(name) {
        lemma_known_keys_are_packages(l, g[key].optional_dependencies[name]);
    }
}

} // verus!
