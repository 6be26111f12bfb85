//! The search for offset chains: from a target backwards along the pointers
//! that lead to its neighbourhood, down to a bounded depth, until an entry
//! point is near.

use crate::links::{LinkMap, Links};
use crate::order::{lemma_ascending_sorted, lower_bound, sorted};
use vstd::prelude::*;

verus! {

/// `a - b`, held within what 64 bits with a sign can say.
pub open spec fn signed_diff_spec(a: u64, b: u64) -> int {
    if a - b > i64::MAX {
        i64::MAX as int
    } else if a - b < i64::MIN {
        i64::MIN as int
    } else {
        a - b
    }
}

/// `a - b` as a signed offset: not below zero when `a` is not below `b`,
/// and at the end of the range where the difference does not fit.
pub fn signed_diff(a: u64, b: u64) -> (r: i64)
    ensures
        r == signed_diff_spec(a, b),
{
    if a >= b {
        let d: u64 = a - b;
        if d > 0x7fff_ffff_ffff_ffff {
            0x7fff_ffff_ffff_ffff
        } else {
            d as i64
        }
    } else {
        let d: u64 = b - a;
        if d > 0x7fff_ffff_ffff_ffff {
            -0x7fff_ffff_ffff_ffff - 1
        } else {
            -(d as i64)
        }
    }
}

/// How far `a` and `b` are apart.
pub open spec fn dist(a: u64, b: u64) -> int {
    if a >= b {
        a - b
    } else {
        b - a
    }
}

/// `e` is the entry within `[lo, hi]` that is nearest to `addr`, and of two
/// that are equally near the higher one.
pub open spec fn is_closest(entries: Seq<u64>, addr: u64, lo: u64, hi: u64, e: u64) -> bool {
    &&& entries.contains(e)
    &&& lo <= e <= hi
    &&& forall|i: int|
        0 <= i < entries.len() && lo <= #[trigger] entries[i] <= hi ==> dist(addr, e) < dist(
            addr,
            entries[i],
        ) || (dist(addr, e) == dist(addr, entries[i]) && e >= entries[i])
}

/// The entry within `[lo, hi]` that is nearest to `addr`, if there is one.
pub open spec fn closest(entries: Seq<u64>, addr: u64, lo: u64, hi: u64) -> Option<u64> {
    if exists|e: u64| is_closest(entries, addr, lo, hi, e) {
        Some(choose|e: u64| is_closest(entries, addr, lo, hi, e))
    } else {
        None
    }
}

/// There is at most one nearest entry.
pub proof fn lemma_closest_unique(entries: Seq<u64>, addr: u64, lo: u64, hi: u64, e: u64)
    requires
        is_closest(entries, addr, lo, hi, e),
    ensures
        closest(entries, addr, lo, hi) == Some(e),
{
    let c = choose|c: u64| is_closest(entries, addr, lo, hi, c);
    let i = choose|i: int| 0 <= i < entries.len() && entries[i] == e;
    let j = choose|j: int| 0 <= j < entries.len() && entries[j] == c;
    assert(lo <= entries[i] <= hi);
    assert(lo <= entries[j] <= hi);
}

/// The entry of `entries` within `[lo, hi]` that is nearest to `addr`, and
/// of two that are equally near the higher one.
pub fn closest_entry(entries: &[u64], addr: u64, lo: u64, hi: u64) -> (r: Option<u64>)
    requires
        sorted(entries@),
    ensures
        r == closest(entries@, addr, lo, hi),
        r is None <==> forall|i: int| 0 <= i < entries.len() ==> !(lo <= #[trigger] entries[i] <= hi),
{
    let first = lower_bound(entries, lo);
    if first >= entries.len() || entries[first] > hi {
        proof {
            assert forall|i: int| 0 <= i < entries.len() implies !(lo <= #[trigger] entries[i]
                <= hi) by {
                if i >= first {
                    assert(entries[first as int] <= entries[i]);
                }
            }
            if exists|e: u64| is_closest(entries@, addr, lo, hi, e) {
                let e = choose|e: u64| is_closest(entries@, addr, lo, hi, e);
                let i = choose|i: int| 0 <= i < entries.len() && entries[i] == e;
                assert(!(lo <= entries[i] <= hi));
            }
        }
        return None;
    }
    let mut best: u64 = entries[first];
    let ghost mut at: int = first as int;
    let mut i: usize = first + 1;
    while i < entries.len() && entries[i] <= hi
        invariant
            sorted(entries@),
            first < i <= entries.len(),
            forall|j: int| 0 <= j < first ==> entries[j] < lo,
            forall|j: int| first <= j < entries.len() ==> entries[j] >= lo,
            forall|j: int| first <= j < i ==> lo <= #[trigger] entries[j] <= hi,
            first <= at < i,
            entries[at] == best,
            forall|j: int|
                first <= j < i ==> dist(addr, best) < dist(addr, #[trigger] entries[j]) || (dist(
                    addr,
                    best,
                ) == dist(addr, entries[j]) && best >= entries[j]),
        decreases entries.len() - i,
    {
        let e: u64 = entries[i];
        let de: u64 = if addr >= e {
            addr - e
        } else {
            e - addr
        };
        let db: u64 = if addr >= best {
            addr - best
        } else {
            best - addr
        };
        // Of two that are equally near, the later and so the higher one stays.
        if de <= db {
            proof {
                assert forall|j: int| first <= j < i + 1 implies dist(addr, e) < dist(
                    addr,
                    #[trigger] entries[j],
                ) || (dist(addr, e) == dist(addr, entries[j]) && e >= entries[j]) by {
                    assert(entries[j] <= entries[i as int]);
                }
            }
            best = e;
            proof {
                at = i as int;
            }
        }
        i += 1;
    }
    proof {
        assert forall|j: int| 0 <= j < entries.len() && lo <= #[trigger] entries[j] <= hi implies dist(
            addr,
            best,
        ) < dist(addr, entries[j]) || (dist(addr, best) == dist(addr, entries[j]) && best
            >= entries[j]) by {
            if j >= i {
                assert(entries[i as int] <= entries[j]);
            }
        }
        lemma_closest_unique(entries@, addr, lo, hi, best);
        assert(lo <= entries[first as int] <= hi);
    }
    Some(best)
}

/// An offset chain: from the address of each step, its offset leads to a
/// pointer to the address of the next step; from the address of the last
/// step, its offset leads to the target.
pub struct Chain {
    /// The address to which the chain leads.
    pub target: u64,
    /// The steps, each an address and an offset from it.
    pub steps: Seq<(u64, i64)>,
}

/// What a search for chains is given.
pub struct Walk {
    /// The pointers.
    pub links: Links,
    /// How far above an address its neighbourhood reaches.
    pub lrange: u64,
    /// How far below an address its neighbourhood reaches.
    pub urange: u64,
    /// The level beyond which the search does not go.
    pub max_levels: nat,
    /// The addresses at which a chain may start.
    pub entries: Seq<u64>,
    /// The address to which the chains lead.
    pub target: u64,
}

impl Walk {
    /// The lowest address of the neighbourhood of `addr`.
    pub open spec fn lo(self, addr: u64) -> u64 {
        if addr >= self.urange {
            (addr - self.urange) as u64
        } else {
            0
        }
    }

    /// The highest address of the neighbourhood of `addr`.
    pub open spec fn hi(self, addr: u64) -> u64 {
        if addr + self.lrange <= u64::MAX {
            (addr + self.lrange) as u64
        } else {
            u64::MAX
        }
    }

    /// The step from `from` to `addr`.
    pub open spec fn step(addr: u64, from: u64) -> (u64, i64) {
        (from, signed_diff_spec(addr, from) as i64)
    }

    /// The chain that ends the search at `addr`: the steps taken so far, the
    /// last one first, behind a step from the entry point nearest to `addr`.
    /// There is none where no entry point is in the neighbourhood.
    pub open spec fn found(self, addr: u64, stack: Seq<(u64, i64)>) -> Seq<Chain> {
        match closest(self.entries, addr, self.lo(addr), self.hi(addr)) {
            Some(e) => seq![
                Chain { target: self.target, steps: stack.push(Self::step(addr, e)).reverse() },
            ],
            None => Seq::empty(),
        }
    }

    /// The chains that a search finds from `addr` at `level`, with the
    /// steps of `stack` taken so far: first the one that ends here, then,
    /// below the deepest level, for every target of a pointer in the
    /// neighbourhood, in ascending order, and for every pointer to it, in
    /// their order, the chains found from that pointer one level deeper.
    pub open spec fn at(self, addr: u64, level: nat, stack: Seq<(u64, i64)>) -> Seq<Chain>
        decreases self.max_levels - level, 2nat, 0nat,
    {
        self.found(addr, stack) + (if level < self.max_levels {
            self.through_targets(addr, level, stack, 0)
        } else {
            Seq::empty()
        })
    }

    /// The chains found through the targets from index `ti` on.
    pub open spec fn through_targets(
        self,
        addr: u64,
        level: nat,
        stack: Seq<(u64, i64)>,
        ti: nat,
    ) -> Seq<Chain>
        decreases self.max_levels - level, 1nat, self.links.targets.len() - ti,
    {
        if level < self.max_levels && ti < self.links.targets.len() {
            let k = self.links.targets[ti as int];
            (if self.lo(addr) <= k <= self.hi(addr) {
                self.through_sources(level, stack.push(Self::step(addr, k)), k, 0)
            } else {
                Seq::empty()
            }) + self.through_targets(addr, level, stack, ti + 1)
        } else {
            Seq::empty()
        }
    }

    /// The chains found through the pointers to `k` from index `si` on.
    pub open spec fn through_sources(
        self,
        level: nat,
        stack: Seq<(u64, i64)>,
        k: u64,
        si: nat,
    ) -> Seq<Chain>
        decreases self.max_levels - level, 0nat, self.links.inverse[k].len() - si,
    {
        if level < self.max_levels && si < self.links.inverse[k].len() {
            self.at(self.links.inverse[k][si as int], level + 1, stack) + self.through_sources(
                level,
                stack,
                k,
                si + 1,
            )
        } else {
            Seq::empty()
        }
    }

    /// Targets outside the neighbourhood add nothing.
    pub proof fn lemma_skip_targets(
        self,
        addr: u64,
        level: nat,
        stack: Seq<(u64, i64)>,
        ti: nat,
        k: nat,
    )
        requires
            ti <= k <= self.links.targets.len(),
            forall|i: int|
                ti <= i < k ==> !(self.lo(addr) <= #[trigger] self.links.targets[i] <= self.hi(addr)),
        ensures
            self.through_targets(addr, level, stack, ti) == self.through_targets(
                addr,
                level,
                stack,
                k,
            ),
        decreases k - ti,
    {
        if ti < k {
            self.lemma_skip_targets(addr, level, stack, ti + 1, k);
            assert(!(self.lo(addr) <= self.links.targets[ti as int] <= self.hi(addr)));
            if level < self.max_levels {
                assert(self.through_targets(addr, level, stack, ti) =~= self.through_targets(
                    addr,
                    level,
                    stack,
                    ti + 1,
                ));
            } else {
                assert(self.through_targets(addr, level, stack, ti) =~= Seq::<Chain>::empty());
                assert(self.through_targets(addr, level, stack, k) =~= Seq::<Chain>::empty());
            }
        }
    }
}

/// A chain as the search hands it out.
pub open spec fn chain_of(c: (u64, Vec<(u64, i64)>)) -> Chain {
    Chain { target: c.0, steps: c.1@ }
}

/// The chains as the search hands them out.
pub open spec fn chains_of(v: Seq<(u64, Vec<(u64, i64)>)>) -> Seq<Chain> {
    Seq::new(v.len(), |i: int| chain_of(v[i]))
}

/// What a search over `links` is given.
pub open spec fn walk_of(
    links: Links,
    range: (usize, usize),
    max_levels: usize,
    entries: Seq<u64>,
    target: u64,
) -> Walk {
    Walk {
        links,
        lrange: range.0 as u64,
        urange: range.1 as u64,
        max_levels: max_levels as nat,
        entries,
        target,
    }
}

/// The steps of `tmp` behind `top`, the last one first.
fn reversed_with(tmp: &Vec<(u64, i64)>, top: (u64, i64)) -> (r: Vec<(u64, i64)>)
    ensures
        r@ == tmp@.push(top).reverse(),
{
    let mut r: Vec<(u64, i64)> = Vec::new();
    r.push(top);
    let mut j: usize = tmp.len();
    let ghost all = tmp@.push(top);
    while j > 0
        invariant
            j <= tmp.len(),
            all == tmp@.push(top),
            r.len() == tmp.len() - j + 1,
            forall|i: int| 0 <= i < r.len() ==> r[i] == all[all.len() - 1 - i],
        decreases j,
    {
        j -= 1;
        r.push(tmp[j]);
    }
    assert(r@ =~= all.reverse());
    r
}

/// Walks from `addr` at `level`: appends to `out` the chains to
/// `final_addr` that a search finds from here, with the steps of `tmp`
/// taken so far.
pub fn walk_down_range(
    links: &LinkMap,
    addr: u64,
    range: (usize, usize),
    max_levels: usize,
    level: usize,
    startpoints: &[u64],
    out: &mut Vec<(u64, Vec<(u64, i64)>)>,
    final_addr: u64,
    tmp: &mut Vec<(u64, i64)>,
)
    requires
        links@.wf(),
        sorted(startpoints@),
    ensures
        final(tmp)@ == old(tmp)@,
        chains_of(final(out)@) == chains_of(old(out)@) + walk_of(
            links@,
            range,
            max_levels,
            startpoints@,
            final_addr,
        ).at(addr, level as nat, old(tmp)@),
    decreases max_levels - level,
{
    let ghost w = walk_of(links@, range, max_levels, startpoints@, final_addr);
    let ghost stack = tmp@;
    let ghost before = chains_of(out@);
    let lrange: u64 = range.0 as u64;
    let urange: u64 = range.1 as u64;
    let lo: u64 = if addr >= urange {
        addr - urange
    } else {
        0
    };
    let hi: u64 = if lrange <= u64::MAX - addr {
        addr + lrange
    } else {
        u64::MAX
    };
    assert(lo == w.lo(addr) && hi == w.hi(addr));
    match closest_entry(startpoints, addr, lo, hi) {
        Some(e) => {
            let off = signed_diff(addr, e);
            let chain = reversed_with(tmp, (e, off));
            let ghost prev = out@;
            out.push((final_addr, chain));
            proof {
                assert(chains_of(out@) =~= chains_of(prev) + w.found(addr, stack));
            }
        },
        None => {
            proof {
                assert(chains_of(out@) =~= chains_of(out@) + w.found(addr, stack));
            }
        },
    }
    let ghost mid = chains_of(out@);
    assert(mid == before + w.found(addr, stack));
    if level < max_levels {
        let targets = links.targets();
        let mut ti: usize = lower_bound(targets.as_slice(), lo);
        proof {
            lemma_ascending_sorted(targets@);
            w.lemma_skip_targets(addr, level as nat, stack, 0, ti as nat);
        }
        while ti < targets.len() && targets[ti] <= hi
            invariant
                links@.wf(),
                sorted(startpoints@),
                targets@ == links@.targets,
                w == walk_of(links@, range, max_levels, startpoints@, final_addr),
                level < max_levels,
                lo == w.lo(addr),
                hi == w.hi(addr),
                tmp@ == stack,
                ti <= targets.len(),
                forall|i: int| ti <= i < targets.len() ==> targets[i] >= lo,
                chains_of(out@) + w.through_targets(addr, level as nat, stack, ti as nat) == mid
                    + w.through_targets(addr, level as nat, stack, 0),
            decreases targets.len() - ti,
        {
            let k: u64 = targets[ti];
            let off = signed_diff(addr, k);
            tmp.push((k, off));
            let ghost deeper = tmp@;
            let ghost rest = w.through_targets(addr, level as nat, stack, (ti + 1) as nat);
            let ghost goal = mid + w.through_targets(addr, level as nat, stack, 0);
            proof {
                assert(deeper == stack.push(Walk::step(addr, k)));
                assert(links@.targets.contains(k));
                assert(w.through_targets(addr, level as nat, stack, ti as nat)
                    == w.through_sources(level as nat, deeper, k, 0) + rest);
                assert(chains_of(out@) + (w.through_sources(level as nat, deeper, k, 0) + rest)
                    =~= chains_of(out@) + w.through_sources(level as nat, deeper, k, 0) + rest);
            }
            match links.sources_of(k) {
                Some(list) => {
                    let mut si: usize = 0;
                    while si < list.len()
                        invariant
                            links@.wf(),
                            sorted(startpoints@),
                            w == walk_of(links@, range, max_levels, startpoints@, final_addr),
                            level < max_levels,
                            links@.inverse.contains_key(k),
                            list@ == links@.inverse[k],
                            tmp@ == deeper,
                            si <= list.len(),
                            chains_of(out@) + w.through_sources(level as nat, deeper, k, si as nat)
                                + rest == goal,
                        decreases list.len() - si,
                    {
                        let ghost prev = chains_of(out@);
                        let ghost here = w.at(list[si as int], (level + 1) as nat, deeper);
                        let ghost after = w.through_sources(level as nat, deeper, k, (si + 1) as nat);
                        walk_down_range(
                            links,
                            list[si],
                            range,
                            max_levels,
                            level + 1,
                            startpoints,
                            out,
                            final_addr,
                            tmp,
                        );
                        proof {
                            assert(w.through_sources(level as nat, deeper, k, si as nat) == here
                                + after);
                            assert(prev + (here + after) + rest =~= prev + here + after + rest);
                        }
                        si += 1;
                    }
                    proof {
                        assert(w.through_sources(level as nat, deeper, k, si as nat)
                            =~= Seq::<Chain>::empty());
                        assert(chains_of(out@) + Seq::<Chain>::empty() + rest =~= chains_of(out@)
                            + rest);
                    }
                },
                None => {
                    proof {
                        assert(false);
                    }
                },
            }
            tmp.pop();
            proof {
                assert(tmp@ =~= stack);
            }
            ti += 1;
        }
        proof {
            assert forall|i: int| ti <= i < targets.len() implies !(w.lo(addr)
                <= #[trigger] links@.targets[i] <= w.hi(addr)) by {
                if i > ti {
                    assert(targets[ti as int] < targets[i]);
                }
            }
            w.lemma_skip_targets(addr, level as nat, stack, ti as nat, targets.len() as nat);
            assert(w.through_targets(addr, level as nat, stack, targets.len() as nat)
                =~= Seq::<Chain>::empty());
            assert(chains_of(out@) + Seq::<Chain>::empty() =~= chains_of(out@));
            assert(before + w.found(addr, stack) + w.through_targets(addr, level as nat, stack, 0)
                =~= before + (w.found(addr, stack) + w.through_targets(
                addr,
                level as nat,
                stack,
                0,
            )));
        }
    } else {
        proof {
            assert(before + w.found(addr, stack) =~= before + (w.found(addr, stack)
                + Seq::<Chain>::empty()));
        }
    }
}

/// The offset of every step lies within the ranges, the offset of each step
/// but the last leads to a pointer to the address of the next step, and the
/// offset of the last step leads to the target.
pub open spec fn chain_valid(l: Links, lrange: u64, urange: u64, c: Chain) -> bool {
    &&& c.steps.len() > 0
    &&& forall|i: int|
        0 <= i < c.steps.len() ==> -(lrange as int) <= (#[trigger] c.steps[i]).1 <= urange
    &&& forall|i: int|
        0 <= i < c.steps.len() - 1 ==> leads_to(l, #[trigger] c.steps[i], c.steps[i + 1].0)
    &&& c.steps.last().0 + c.steps.last().1 == c.target
}

/// The offset of `step` leads to a pointer to `next`.
pub open spec fn leads_to(l: Links, step: (u64, i64), next: u64) -> bool {
    &&& 0 <= step.0 + step.1 <= u64::MAX
    &&& l.forward.contains_key((step.0 + step.1) as u64)
    &&& l.forward[(step.0 + step.1) as u64] == next
}

/// The steps of `stack`, the first one taken first, lead back to the
/// target.
pub open spec fn stack_linked(w: Walk, stack: Seq<(u64, i64)>) -> bool {
    &&& forall|j: int|
        0 <= j < stack.len() ==> -(w.lrange as int) <= (#[trigger] stack[j]).1 <= w.urange
    &&& forall|j: int| 1 <= j < stack.len() ==> leads_to(w.links, #[trigger] stack[j], stack[j - 1].0)
    &&& stack.len() > 0 ==> stack[0].0 + stack[0].1 == w.target
}

/// The search stands at `addr` by right: at the target where no step was
/// taken, else at a pointer to the address of the last step.
pub open spec fn stack_valid(w: Walk, addr: u64, stack: Seq<(u64, i64)>) -> bool {
    &&& stack_linked(w, stack)
    &&& stack.len() == 0 ==> addr == w.target
    &&& stack.len() > 0 ==> w.links.forward.contains_key(addr) && w.links.forward[addr]
        == stack.last().0
}

/// Every chain of `cs` is valid and leads to `target`.
pub open spec fn all_valid(l: Links, lrange: u64, urange: u64, target: u64, cs: Seq<Chain>) -> bool {
    forall|i: int|
        0 <= i < cs.len() ==> chain_valid(l, lrange, urange, #[trigger] cs[i]) && cs[i].target
            == target
}

/// Two lists of valid chains make one.
proof fn lemma_all_valid_add(
    l: Links,
    lrange: u64,
    urange: u64,
    target: u64,
    a: Seq<Chain>,
    b: Seq<Chain>,
)
    requires
        all_valid(l, lrange, urange, target, a),
        all_valid(l, lrange, urange, target, b),
    ensures
        all_valid(l, lrange, urange, target, a + b),
{
    assert forall|i: int| 0 <= i < (a + b).len() implies chain_valid(
        l,
        lrange,
        urange,
        #[trigger] (a + b)[i],
    ) && (a + b)[i].target == target by {
        if i < a.len() {
            assert((a + b)[i] == a[i]);
        } else {
            assert((a + b)[i] == b[i - a.len()]);
        }
    }
}

/// One more step from the neighbourhood of where the search stands keeps
/// the steps linked.
proof fn lemma_push_linked(w: Walk, addr: u64, stack: Seq<(u64, i64)>, k: u64)
    requires
        w.lrange <= i64::MAX,
        w.urange <= i64::MAX,
        stack_valid(w, addr, stack),
        w.lo(addr) <= k <= w.hi(addr),
    ensures
        stack_linked(w, stack.push(Walk::step(addr, k))),
        stack.push(Walk::step(addr, k)).last().0 == k,
{
    let deeper = stack.push(Walk::step(addr, k));
    assert(Walk::step(addr, k).1 == addr - k);
    assert forall|j: int| 1 <= j < deeper.len() implies leads_to(
        w.links,
        #[trigger] deeper[j],
        deeper[j - 1].0,
    ) by {
        if j < stack.len() {
            assert(leads_to(w.links, stack[j], stack[j - 1].0));
        }
    }
}

impl Walk {
    /// Every chain that a search finds is valid, where the ranges are such
    /// that every offset can be told.
    pub proof fn lemma_at_valid(self, addr: u64, level: nat, stack: Seq<(u64, i64)>)
        requires
            self.links.wf(),
            self.lrange <= i64::MAX,
            self.urange <= i64::MAX,
            stack_valid(self, addr, stack),
        ensures
            all_valid(
                self.links,
                self.lrange,
                self.urange,
                self.target,
                self.at(addr, level, stack),
            ),
        decreases self.max_levels - level, 2nat, 0nat,
    {
        let lo = self.lo(addr);
        let hi = self.hi(addr);
        match closest(self.entries, addr, lo, hi) {
            Some(e) => {
                assert(is_closest(self.entries, addr, lo, hi, e));
                lemma_push_linked(self, addr, stack, e);
                let up = stack.push(Self::step(addr, e));
                let c = Chain { target: self.target, steps: up.reverse() };
                assert forall|i: int| 0 <= i < c.steps.len() - 1 implies leads_to(
                    self.links,
                    #[trigger] c.steps[i],
                    c.steps[i + 1].0,
                ) by {
                    assert(leads_to(self.links, up[up.len() - 1 - i], up[up.len() - 1 - i - 1].0));
                }
                assert forall|i: int| 0 <= i < c.steps.len() implies -(self.lrange as int) <= (
                #[trigger] c.steps[i]).1 <= self.urange by {
                    assert(-(self.lrange as int) <= up[up.len() - 1 - i].1 <= self.urange);
                }
                assert(chain_valid(self.links, self.lrange, self.urange, c));
            },
            None => {},
        }
        let first = self.found(addr, stack);
        assert(all_valid(self.links, self.lrange, self.urange, self.target, first));
        let rest = if level < self.max_levels {
            self.through_targets(addr, level, stack, 0)
        } else {
            Seq::empty()
        };
        if level < self.max_levels {
            self.lemma_targets_valid(addr, level, stack, 0);
        }
        lemma_all_valid_add(self.links, self.lrange, self.urange, self.target, first, rest);
    }

    /// Every chain found through the targets is valid.
    pub proof fn lemma_targets_valid(self, addr: u64, level: nat, stack: Seq<(u64, i64)>, ti: nat)
        requires
            self.links.wf(),
            self.lrange <= i64::MAX,
            self.urange <= i64::MAX,
            stack_valid(self, addr, stack),
        ensures
            all_valid(
                self.links,
                self.lrange,
                self.urange,
                self.target,
                self.through_targets(addr, level, stack, ti),
            ),
        decreases self.max_levels - level, 1nat, self.links.targets.len() - ti,
    {
        if level < self.max_levels && ti < self.links.targets.len() {
            let k = self.links.targets[ti as int];
            self.lemma_targets_valid(addr, level, stack, ti + 1);
            let here = if self.lo(addr) <= k <= self.hi(addr) {
                self.through_sources(level, stack.push(Self::step(addr, k)), k, 0)
            } else {
                Seq::empty()
            };
            if self.lo(addr) <= k <= self.hi(addr) {
                assert(self.links.targets.contains(k));
                lemma_push_linked(self, addr, stack, k);
                self.lemma_sources_valid(level, stack.push(Self::step(addr, k)), k, 0);
            }
            lemma_all_valid_add(
                self.links,
                self.lrange,
                self.urange,
                self.target,
                here,
                self.through_targets(addr, level, stack, ti + 1),
            );
        }
    }

    /// Every chain found through the pointers to a target is valid.
    pub proof fn lemma_sources_valid(self, level: nat, stack: Seq<(u64, i64)>, k: u64, si: nat)
        requires
            self.links.wf(),
            self.lrange <= i64::MAX,
            self.urange <= i64::MAX,
            self.links.inverse.contains_key(k),
            stack_linked(self, stack),
            stack.len() > 0,
            stack.last().0 == k,
        ensures
            all_valid(
                self.links,
                self.lrange,
                self.urange,
                self.target,
                self.through_sources(level, stack, k, si),
            ),
        decreases self.max_levels - level, 0nat, self.links.inverse[k].len() - si,
    {
        if level < self.max_levels && si < self.links.inverse[k].len() {
            let v = self.links.inverse[k][si as int];
            assert(self.links.forward.contains_key(v) && self.links.forward[v] == k);
            self.lemma_at_valid(v, level + 1, stack);
            self.lemma_sources_valid(level, stack, k, si + 1);
            lemma_all_valid_add(
                self.links,
                self.lrange,
                self.urange,
                self.target,
                self.at(v, level + 1, stack),
                self.through_sources(level, stack, k, si + 1),
            );
        }
    }
}

/// Every chain of `cs` has more than `taken` steps and no more than
/// `most`.
pub open spec fn all_within(cs: Seq<Chain>, taken: int, most: int) -> bool {
    forall|i: int| 0 <= i < cs.len() ==> taken < (#[trigger] cs[i]).steps.len() <= most
}

proof fn lemma_all_within_add(a: Seq<Chain>, b: Seq<Chain>, taken: int, most: int)
    requires
        all_within(a, taken, most),
        all_within(b, taken, most),
    ensures
        all_within(a + b, taken, most),
{
    assert forall|i: int| 0 <= i < (a + b).len() implies taken < (#[trigger] (a + b)[i]).steps.len()
        <= most by {
        if i < a.len() {
            assert((a + b)[i] == a[i]);
        } else {
            assert((a + b)[i] == b[i - a.len()]);
        }
    }
}

impl Walk {
    /// The most steps that a chain found from `level` with `taken` steps
    /// taken can have: one more, and one for every level still to go.
    pub open spec fn most_steps(self, level: nat, taken: nat) -> int {
        taken + 1 + if level < self.max_levels {
            self.max_levels - level
        } else {
            0
        }
    }

    /// A chain found at a level has the steps taken so far, one more, and
    /// at most one for every level below.
    pub proof fn lemma_at_length(self, addr: u64, level: nat, stack: Seq<(u64, i64)>)
        ensures
            all_within(
                self.at(addr, level, stack),
                stack.len() as int,
                self.most_steps(level, stack.len()),
            ),
        decreases self.max_levels - level, 2nat, 0nat,
    {
        let first = self.found(addr, stack);
        let most = self.most_steps(level, stack.len());
        assert(all_within(first, stack.len() as int, most));
        let rest = if level < self.max_levels {
            self.through_targets(addr, level, stack, 0)
        } else {
            Seq::empty()
        };
        if level < self.max_levels {
            self.lemma_targets_length(addr, level, stack, 0);
        }
        lemma_all_within_add(first, rest, stack.len() as int, most);
    }

    /// The same of the chains found through the targets.
    pub proof fn lemma_targets_length(self, addr: u64, level: nat, stack: Seq<(u64, i64)>, ti: nat)
        ensures
            all_within(
                self.through_targets(addr, level, stack, ti),
                stack.len() as int,
                self.most_steps(level, stack.len()),
            ),
        decreases self.max_levels - level, 1nat, self.links.targets.len() - ti,
    {
        if level < self.max_levels && ti < self.links.targets.len() {
            let k = self.links.targets[ti as int];
            let most = self.most_steps(level, stack.len());
            self.lemma_targets_length(addr, level, stack, ti + 1);
            let deeper = stack.push(Self::step(addr, k));
            let here = if self.lo(addr) <= k <= self.hi(addr) {
                self.through_sources(level, deeper, k, 0)
            } else {
                Seq::empty()
            };
            if self.lo(addr) <= k <= self.hi(addr) {
                self.lemma_sources_length(level, deeper, k, 0);
            }
            assert(all_within(here, stack.len() as int, most)) by {
                assert forall|i: int| 0 <= i < here.len() implies stack.len() < (
                #[trigger] here[i]).steps.len() <= most by {}
            }
            lemma_all_within_add(
                here,
                self.through_targets(addr, level, stack, ti + 1),
                stack.len() as int,
                most,
            );
        }
    }

    /// The same of the chains found through the pointers to a target.
    pub proof fn lemma_sources_length(self, level: nat, stack: Seq<(u64, i64)>, k: u64, si: nat)
        requires
            stack.len() > 0,
        ensures
            all_within(
                self.through_sources(level, stack, k, si),
                stack.len() as int,
                self.most_steps(level, (stack.len() - 1) as nat),
            ),
        decreases self.max_levels - level, 0nat, self.links.inverse[k].len() - si,
    {
        if level < self.max_levels && si < self.links.inverse[k].len() {
            let v = self.links.inverse[k][si as int];
            let most = self.most_steps(level, (stack.len() - 1) as nat);
            self.lemma_at_length(v, level + 1, stack);
            self.lemma_sources_length(level, stack, k, si + 1);
            let here = self.at(v, level + 1, stack);
            assert(all_within(here, stack.len() as int, most)) by {
                assert forall|i: int| 0 <= i < here.len() implies stack.len() < (
                #[trigger] here[i]).steps.len() <= most by {}
            }
            lemma_all_within_add(
                here,
                self.through_sources(level, stack, k, si + 1),
                stack.len() as int,
                most,
            );
        }
    }
}

/// The chains to every address of `search_for` from index `i` on, each
/// searched for from the address itself at level 1.
pub open spec fn all_chains(
    links: Links,
    range: (usize, usize),
    max_depth: usize,
    search_for: Seq<u64>,
    entries: Seq<u64>,
    i: nat,
) -> Seq<Chain>
    decreases search_for.len() - i,
{
    if i < search_for.len() {
        walk_of(links, range, max_depth, entries, search_for[i as int]).at(
            search_for[i as int],
            1,
            Seq::empty(),
        ) + all_chains(links, range, max_depth, search_for, entries, i + 1)
    } else {
        Seq::empty()
    }
}

/// Every chain that a search for several addresses finds is valid, and
/// leads to one of the addresses.
pub proof fn lemma_all_chains_valid(
    links: Links,
    range: (usize, usize),
    max_depth: usize,
    search_for: Seq<u64>,
    entries: Seq<u64>,
    i: nat,
)
    requires
        links.wf(),
        range.0 <= i64::MAX,
        range.1 <= i64::MAX,
    ensures
        forall|q: int|
            0 <= q < all_chains(links, range, max_depth, search_for, entries, i).len()
                ==> chain_valid(
                links,
                range.0 as u64,
                range.1 as u64,
                #[trigger] all_chains(links, range, max_depth, search_for, entries, i)[q],
            ) && search_for.contains(
                all_chains(links, range, max_depth, search_for, entries, i)[q].target,
            ),
    decreases search_for.len() - i,
{
    if i < search_for.len() {
        let w = walk_of(links, range, max_depth, entries, search_for[i as int]);
        w.lemma_at_valid(search_for[i as int], 1, Seq::empty());
        lemma_all_chains_valid(links, range, max_depth, search_for, entries, i + 1);
        assert(search_for.contains(search_for[i as int]));
        let here = w.at(search_for[i as int], 1, Seq::empty());
        let rest = all_chains(links, range, max_depth, search_for, entries, i + 1);
        assert forall|q: int| 0 <= q < (here + rest).len() implies chain_valid(
            links,
            range.0 as u64,
            range.1 as u64,
            #[trigger] (here + rest)[q],
        ) && search_for.contains((here + rest)[q].target) by {
            if q < here.len() {
                assert((here + rest)[q] == here[q]);
            } else {
                assert((here + rest)[q] == rest[q - here.len()]);
            }
        }
    }
}

/// No chain that a search for several addresses finds has more steps than
/// the depth allows; a chain of one step is found at any depth.
pub proof fn lemma_all_chains_length(
    links: Links,
    range: (usize, usize),
    max_depth: usize,
    search_for: Seq<u64>,
    entries: Seq<u64>,
    i: nat,
)
    ensures
        all_within(
            all_chains(links, range, max_depth, search_for, entries, i),
            0,
            if max_depth > 1 { max_depth as int } else { 1 },
        ),
    decreases search_for.len() - i,
{
    if i < search_for.len() {
        let w = walk_of(links, range, max_depth, entries, search_for[i as int]);
        w.lemma_at_length(search_for[i as int], 1, Seq::empty());
        lemma_all_chains_length(links, range, max_depth, search_for, entries, i + 1);
        let most = if max_depth > 1 {
            max_depth as int
        } else {
            1
        };
        let here = w.at(search_for[i as int], 1, Seq::empty());
        assert(all_within(here, 0, most)) by {
            assert forall|q: int| 0 <= q < here.len() implies 0 < (#[trigger] here[q]).steps.len()
                <= most by {}
        }
        lemma_all_within_add(
            here,
            all_chains(links, range, max_depth, search_for, entries, i + 1),
            0,
            most,
        );
    }
}

/// Where the neighbourhood reaches as far up as down, every offset of
/// every chain found lies between the reach downwards, negated, and the
/// reach upwards.
pub proof fn lemma_offsets_in_equal_ranges(
    links: Links,
    range: (usize, usize),
    max_depth: usize,
    search_for: Seq<u64>,
    entries: Seq<u64>,
)
    requires
        links.wf(),
        range.0 == range.1,
        range.0 <= i64::MAX,
    ensures
        forall|q: int, i: int|
            0 <= q < all_chains(links, range, max_depth, search_for, entries, 0).len() && 0 <= i
                < all_chains(links, range, max_depth, search_for, entries, 0)[q].steps.len()
                ==> -(range.1 as int) <= (#[trigger] all_chains(
                links,
                range,
                max_depth,
                search_for,
                entries,
                0,
            )[q].steps[i]).1 <= range.0,
{
    lemma_all_chains_valid(links, range, max_depth, search_for, entries, 0);
    let cs = all_chains(links, range, max_depth, search_for, entries, 0);
    assert forall|q: int, i: int| 0 <= q < cs.len() && 0 <= i < cs[q].steps.len() implies -(
    range.1 as int) <= (#[trigger] cs[q].steps[i]).1 <= range.0 by {
        assert(chain_valid(links, range.0 as u64, range.1 as u64, cs[q]));
    }
}

/// Searches for chains to every address of `search_for`, one after the
/// other.
pub fn find_chains(
    links: &LinkMap,
    range: (usize, usize),
    max_depth: usize,
    search_for: &[u64],
    entry_points: &[u64],
) -> (r: Vec<(u64, Vec<(u64, i64)>)>)
    requires
        links@.wf(),
        sorted(entry_points@),
    ensures
        chains_of(r@) == all_chains(links@, range, max_depth, search_for@, entry_points@, 0),
{
    let mut out: Vec<(u64, Vec<(u64, i64)>)> = Vec::new();
    let mut tmp: Vec<(u64, i64)> = Vec::new();
    let mut i: usize = 0;
    let ghost goal = all_chains(links@, range, max_depth, search_for@, entry_points@, 0);
    assert(chains_of(out@) + goal =~= goal);
    while i < search_for.len()
        invariant
            links@.wf(),
            sorted(entry_points@),
            i <= search_for.len(),
            tmp@ == Seq::<(u64, i64)>::empty(),
            chains_of(out@) + all_chains(
                links@,
                range,
                max_depth,
                search_for@,
                entry_points@,
                i as nat,
            ) == goal,
        decreases search_for.len() - i,
    {
        let m: u64 = search_for[i];
        let ghost prev = chains_of(out@);
        let ghost here = walk_of(links@, range, max_depth, entry_points@, m).at(
            m,
            1,
            Seq::empty(),
        );
        let ghost rest = all_chains(
            links@,
            range,
            max_depth,
            search_for@,
            entry_points@,
            (i + 1) as nat,
        );
        walk_down_range(links, m, range, max_depth, 1, entry_points, &mut out, m, &mut tmp);
        proof {
            assert(prev + (here + rest) =~= prev + here + rest);
        }
        i += 1;
    }
    proof {
        assert(chains_of(out@) + Seq::<Chain>::empty() =~= chains_of(out@));
    }
    out
}

} // verus!
