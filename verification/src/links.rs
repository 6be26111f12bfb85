//! Edges from one address to another, held both ways: from each source to
//! its target, and from each target to the sources that lead to it.

use crate::order::{ascending, sort_distinct};
use std::collections::BTreeMap;
use vstd::prelude::*;

verus! {

/// What a [`LinkMap`] holds.
pub struct Links {
    /// The target of each source.
    pub forward: Map<u64, u64>,
    /// The sources of each target.
    pub inverse: Map<u64, Seq<u64>>,
    /// The sources.
    pub sources: Seq<u64>,
    /// The targets.
    pub targets: Seq<u64>,
}

impl Links {
    /// Both maps hold the same edges, every list rises strictly, and
    /// `sources` and `targets` list the keys of the two maps.
    pub open spec fn wf(self) -> bool {
        &&& forall|k: u64| #[trigger]
            self.forward.contains_key(k) ==> self.inverse.contains_key(self.forward[k])
                && self.inverse[self.forward[k]].contains(k)
        &&& forall|t: u64, i: int|
            self.inverse.contains_key(t) && 0 <= i < self.inverse[t].len()
                ==> self.forward.contains_key(#[trigger] self.inverse[t][i])
                && self.forward[self.inverse[t][i]] == t
        &&& forall|t: u64| #[trigger]
            self.inverse.contains_key(t) ==> self.inverse[t].len() > 0 && ascending(
                self.inverse[t],
            )
        &&& ascending(self.sources)
        &&& forall|k: u64| self.sources.contains(k) <==> self.forward.contains_key(k)
        &&& ascending(self.targets)
        &&& forall|t: u64| self.targets.contains(t) <==> self.inverse.contains_key(t)
    }

    /// No edges.
    pub open spec fn empty() -> Links {
        Links {
            forward: Map::empty(),
            inverse: Map::empty(),
            sources: Seq::empty(),
            targets: Seq::empty(),
        }
    }
}

/// Both directions of a map of edges hold the same edges: `k` has the
/// target `t` if and only if `t` has the source `k`.
pub proof fn lemma_inverse_mirror(l: Links, k: u64, t: u64)
    requires
        l.wf(),
    ensures
        (l.forward.contains_key(k) && l.forward[k] == t) <==> (l.inverse.contains_key(t)
            && l.inverse[t].contains(k)),
{
    if l.inverse.contains_key(t) && l.inverse[t].contains(k) {
        let i = choose|i: int| 0 <= i < l.inverse[t].len() && l.inverse[t][i] == k;
        assert(l.forward.contains_key(l.inverse[t][i]));
    }
}

/// The edges of `es` as a map from source to target. Of two edges from one
/// source the earlier one counts.
pub open spec fn edge_map(es: Seq<(u64, u64)>) -> Map<u64, u64>
    decreases es.len(),
{
    if es.len() == 0 {
        Map::empty()
    } else {
        let m = edge_map(es.drop_last());
        if m.contains_key(es.last().0) {
            m
        } else {
            m.insert(es.last().0, es.last().1)
        }
    }
}

/// What the map of a list of edges holds: a source has a target when an
/// edge starts at it, and the target is that of the first such edge.
pub proof fn lemma_edge_map(es: Seq<(u64, u64)>, k: u64)
    ensures
        edge_map(es).contains_key(k) <==> exists|i: int| 0 <= i < es.len() && (#[trigger] es[i]).0 == k,
        edge_map(es).contains_key(k) ==> exists|i: int|
            0 <= i < es.len() && (#[trigger] es[i]).0 == k && es[i].1 == edge_map(es)[k] && forall|
                j: int,
            |
                0 <= j < i ==> (#[trigger] es[j]).0 != k,
    decreases es.len(),
{
    if es.len() > 0 {
        let front = es.drop_last();
        lemma_edge_map(front, k);
        let m = edge_map(front);
        if m.contains_key(k) {
            let i = choose|i: int|
                0 <= i < front.len() && (#[trigger] front[i]).0 == k && front[i].1 == m[k] && forall|
                    j: int,
                |
                    0 <= j < i ==> (#[trigger] front[j]).0 != k;
            assert(es[i] == front[i]);
            assert forall|j: int| 0 <= j < i implies (#[trigger] es[j]).0 != k by {
                assert(es[j] == front[j]);
            }
        } else if es.last().0 == k {
            let i = es.len() - 1;
            assert(es[i].0 == k);
            assert forall|j: int| 0 <= j < i implies (#[trigger] es[j]).0 != k by {
                assert(front[j] == es[j]);
            }
        } else {
            if exists|i: int| 0 <= i < es.len() && (#[trigger] es[i]).0 == k {
                let i = choose|i: int| 0 <= i < es.len() && (#[trigger] es[i]).0 == k;
                assert(front[i] == es[i]);
            }
        }
    }
}

/// Edges between addresses, to be asked both ways.
pub struct LinkMap {
    map: BTreeMap<u64, u64>,
    inverse_map: BTreeMap<u64, Vec<u64>>,
    sources: Vec<u64>,
    targets: Vec<u64>,
}

impl View for LinkMap {
    type V = Links;

    closed spec fn view(&self) -> Links {
        Links {
            forward: self.map@,
            inverse: Map::new(
                |t: u64| self.inverse_map@.contains_key(t),
                |t: u64| self.inverse_map@[t]@,
            ),
            sources: self.sources@,
            targets: self.targets@,
        }
    }
}

impl LinkMap {
    /// A map without edges.
    pub fn new() -> (r: Self)
        ensures
            r@ == Links::empty(),
            r@.wf(),
    {
        let r = LinkMap {
            map: BTreeMap::new(),
            inverse_map: BTreeMap::new(),
            sources: Vec::new(),
            targets: Vec::new(),
        };
        proof {
            assert(r@.inverse =~= Map::<u64, Seq<u64>>::empty());
        }
        r
    }

    /// The target of each source.
    pub fn map(&self) -> (r: &BTreeMap<u64, u64>)
        ensures
            r@ == self@.forward,
    {
        &self.map
    }

    /// The sources of each target.
    pub fn inverse_map(&self) -> (r: &BTreeMap<u64, Vec<u64>>)
        ensures
            forall|t: u64| r@.contains_key(t) <==> self@.inverse.contains_key(t),
            forall|t: u64| r@.contains_key(t) ==> r@[t]@ == self@.inverse[t],
    {
        &self.inverse_map
    }

    /// The sources, in ascending order.
    pub fn sources(&self) -> (r: &Vec<u64>)
        ensures
            r@ == self@.sources,
    {
        &self.sources
    }

    /// The targets, in ascending order.
    pub fn targets(&self) -> (r: &Vec<u64>)
        ensures
            r@ == self@.targets,
    {
        &self.targets
    }

    /// The sources of target `t`, if it has any.
    pub fn sources_of(&self, t: u64) -> (r: Option<&Vec<u64>>)
        ensures
            r is Some <==> self@.inverse.contains_key(t),
            r matches Some(l) ==> l@ == self@.inverse[t],
    {
        self.inverse_map.get(&t)
    }
}

/// The map of `edges`, and its sources in the order in which they came.
fn first_wins(edges: &Vec<(u64, u64)>) -> (r: (BTreeMap<u64, u64>, Vec<u64>))
    ensures
        r.0@ == edge_map(edges@),
        r.1@.no_duplicates(),
        forall|k: u64| r.1@.contains(k) <==> r.0@.contains_key(k),
{
    let mut map: BTreeMap<u64, u64> = BTreeMap::new();
    let mut keys: Vec<u64> = Vec::new();
    let mut i: usize = 0;
    while i < edges.len()
        invariant
            i <= edges.len(),
            map@ == edge_map(edges@.take(i as int)),
            keys@.no_duplicates(),
            forall|k: u64| keys@.contains(k) <==> map@.contains_key(k),
        decreases edges.len() - i,
    {
        let (k, v) = edges[i];
        let ghost prev_keys = keys@;
        let ghost prev_map = map@;
        proof {
            assert(edges@.take(i + 1).drop_last() =~= edges@.take(i as int));
            assert(edges@.take(i + 1).last() == edges[i as int]);
        }
        if !map.contains_key(&k) {
            map.insert(k, v);
            keys.push(k);
            proof {
                assert forall|x: u64| keys@.contains(x) <==> map@.contains_key(x) by {
                    if keys@.contains(x) {
                        let q = choose|q: int| 0 <= q < keys.len() && keys[q] == x;
                        if q < prev_keys.len() {
                            assert(prev_keys[q] == x);
                            assert(prev_keys.contains(x));
                        }
                    }
                    if prev_map.contains_key(x) {
                        assert(prev_keys.contains(x));
                        let q = choose|q: int| 0 <= q < prev_keys.len() && prev_keys[q] == x;
                        assert(keys[q] == x);
                    }
                    if x == k {
                        assert(keys[prev_keys.len() as int] == x);
                    }
                }
                assert forall|a: int, b: int| 0 <= a < b < keys.len() implies keys[a] != keys[b] by {
                    if b == prev_keys.len() {
                        assert(prev_keys[a] == keys[a]);
                        assert(prev_keys.contains(keys[a]));
                    } else {
                        assert(prev_keys[a] != prev_keys[b]);
                    }
                }
            }
        }
        i += 1;
    }
    proof {
        assert(edges@.take(edges.len() as int) =~= edges@);
    }
    (map, keys)
}

/// Adds `k` to the sources of `t`. The result says whether `t` is new.
fn add_source(inv: &mut BTreeMap<u64, Vec<u64>>, t: u64, k: u64) -> (fresh: bool)
    ensures
        fresh == !old(inv)@.contains_key(t),
        final(inv)@.contains_key(t),
        final(inv)@[t]@ == (if old(inv)@.contains_key(t) {
            old(inv)@[t]@.push(k)
        } else {
            seq![k]
        }),
        forall|x: u64| x != t ==> (final(inv)@.contains_key(x) <==> old(inv)@.contains_key(x)),
        forall|x: u64| x != t && old(inv)@.contains_key(x) ==> final(inv)@[x] == old(inv)@[x],
{
    match inv.remove(&t) {
        Some(mut l) => {
            l.push(k);
            inv.insert(t, l);
            false
        },
        None => {
            let mut l: Vec<u64> = Vec::new();
            l.push(k);
            inv.insert(t, l);
            true
        },
    }
}

/// The sources of each target of `map`, and the targets in the order in
/// which they came.
fn invert(map: &BTreeMap<u64, u64>, sources: &Vec<u64>) -> (r: (BTreeMap<u64, Vec<u64>>, Vec<u64>))
    requires
        ascending(sources@),
        forall|k: u64| sources@.contains(k) <==> map@.contains_key(k),
    ensures
        forall|k: u64| #[trigger]
            map@.contains_key(k) ==> r.0@.contains_key(map@[k]) && r.0@[map@[k]]@.contains(k),
        forall|t: u64, q: int|
            r.0@.contains_key(t) && 0 <= q < r.0@[t]@.len() ==> map@.contains_key(
                #[trigger] r.0@[t]@[q],
            ) && map@[r.0@[t]@[q]] == t,
        forall|t: u64| #[trigger] r.0@.contains_key(t) ==> r.0@[t]@.len() > 0 && ascending(r.0@[t]@),
        r.1@.no_duplicates(),
        forall|t: u64| r.1@.contains(t) <==> r.0@.contains_key(t),
{
    let mut inv: BTreeMap<u64, Vec<u64>> = BTreeMap::new();
    let mut found: Vec<u64> = Vec::new();
    let mut i: usize = 0;
    while i < sources.len()
        invariant
            ascending(sources@),
            forall|k: u64| sources@.contains(k) <==> map@.contains_key(k),
            i <= sources.len(),
            forall|j: int|
                0 <= j < i ==> inv@.contains_key(map@[#[trigger] sources[j]])
                    && inv@[map@[sources[j]]]@.contains(sources[j]),
            forall|t: u64, q: int|
                inv@.contains_key(t) && 0 <= q < inv@[t]@.len() ==> map@.contains_key(
                    #[trigger] inv@[t]@[q],
                ) && map@[inv@[t]@[q]] == t && (i < sources.len() ==> inv@[t]@[q] < sources[i as int]),
            forall|t: u64| #[trigger] inv@.contains_key(t) ==> inv@[t]@.len() > 0 && ascending(inv@[t]@),
            found@.no_duplicates(),
            forall|t: u64| found@.contains(t) <==> inv@.contains_key(t),
        decreases sources.len() - i,
    {
        let k: u64 = sources[i];
        let ghost prev = inv@;
        let ghost prev_found = found@;
        assert(sources@.contains(k));
        let mut t: u64 = 0;
        let mut fresh = false;
        match map.get(&k) {
            Some(v) => {
                t = *v;
                fresh = add_source(&mut inv, t, k);
                if fresh {
                    found.push(t);
                }
            },
            None => {
                assert(false);
            },
        }
        assert(t == map@[k]);
        proof {
            if i + 1 < sources.len() {
                assert(sources[i as int] < sources[i + 1]);
            }
            assert forall|j: int| 0 <= j < i + 1 implies inv@.contains_key(
                map@[#[trigger] sources[j]],
            ) && inv@[map@[sources[j]]]@.contains(sources[j]) by {
                let tj = map@[sources[j]];
                if j == i {
                    assert(inv@[t]@[inv@[t]@.len() - 1] == k);
                } else if tj == t {
                    assert(prev[t]@.contains(sources[j]));
                    let q = choose|q: int| 0 <= q < prev[t]@.len() && prev[t]@[q] == sources[j];
                    assert(inv@[t]@[q] == sources[j]);
                }
            }
            assert forall|x: u64, q: int|
                inv@.contains_key(x) && 0 <= q < inv@[x]@.len() implies map@.contains_key(
                #[trigger] inv@[x]@[q],
            ) && map@[inv@[x]@[q]] == x && (i + 1 < sources.len() ==> inv@[x]@[q] < sources[i
                + 1]) by {
                if x == t {
                    if prev.contains_key(t) && q < prev[t]@.len() {
                        assert(inv@[t]@[q] == prev[t]@[q]);
                    }
                } else {
                    assert(inv@[x]@[q] == prev[x]@[q]);
                }
            }
            assert forall|x: u64| #[trigger] inv@.contains_key(x) implies inv@[x]@.len() > 0
                && ascending(inv@[x]@) by {
                if x == t && prev.contains_key(t) {
                    assert forall|a: int, b: int| 0 <= a < b < inv@[t]@.len() implies inv@[t]@[a]
                        < inv@[t]@[b] by {
                        if b < prev[t]@.len() {
                            assert(prev[t]@[a] < prev[t]@[b]);
                        } else {
                            assert(inv@[t]@[a] == prev[t]@[a]);
                        }
                    }
                }
            }
            assert forall|x: u64| found@.contains(x) <==> inv@.contains_key(x) by {
                if found@.contains(x) {
                    let q = choose|q: int| 0 <= q < found.len() && found[q] == x;
                    if q < prev_found.len() {
                        assert(prev_found[q] == x);
                        assert(prev_found.contains(x));
                    }
                }
                if prev.contains_key(x) {
                    assert(prev_found.contains(x));
                    let q = choose|q: int| 0 <= q < prev_found.len() && prev_found[q] == x;
                    assert(found[q] == x);
                }
                if x == t && fresh {
                    assert(found[prev_found.len() as int] == x);
                }
            }
            assert forall|a: int, b: int| 0 <= a < b < found.len() implies found[a] != found[b] by {
                if fresh && b == prev_found.len() {
                    assert(prev_found[a] == found[a]);
                    assert(prev_found.contains(found[a]));
                } else {
                    assert(prev_found[a] != prev_found[b]);
                }
            }
        }
        i += 1;
    }
    proof {
        assert forall|k: u64| #[trigger] map@.contains_key(k) implies inv@.contains_key(map@[k])
            && inv@[map@[k]]@.contains(k) by {
            assert(sources@.contains(k));
            let j = choose|j: int| 0 <= j < sources.len() && sources[j] == k;
            assert(inv@.contains_key(map@[sources[j]]));
        }
    }
    (inv, found)
}

impl LinkMap {
    /// The map of `edges`. Of two edges from one source the earlier one
    /// counts.
    pub fn from_edges(edges: &Vec<(u64, u64)>) -> (r: Self)
        ensures
            r@.wf(),
            r@.forward == edge_map(edges@),
    {
        let (map, keys) = first_wins(edges);
        let sources = sort_distinct(&keys);
        let (inverse_map, found) = invert(&map, &sources);
        let targets = sort_distinct(&found);
        let r = LinkMap { map, inverse_map, sources, targets };
        proof {
            let l = r@;
            assert forall|t: u64, i: int|
                l.inverse.contains_key(t) && 0 <= i < l.inverse[t].len() implies l.forward.contains_key(
                #[trigger] l.inverse[t][i],
            ) && l.forward[l.inverse[t][i]] == t by {
                assert(r.inverse_map@[t]@[i] == l.inverse[t][i]);
            }
        }
        r
    }
}

} // verus!
