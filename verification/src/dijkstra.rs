//! A generic best-first (Dijkstra-style) search engine.
//!
//! The engine explores an abstract, lazily expanded state graph described by a
//! [`Space`]: a goal predicate together with a neighbor function that returns
//! the outgoing edges of a state with their non-negative costs.  States carry
//! an identity projection ([`Value`]) used to deduplicate places that were
//! already finalized.  The engine repeatedly pops the cheapest frontier entry;
//! the first pop of any identity is optimal because edge costs never decrease
//! a path's cost.

use vstd::prelude::*;

verus! {

/// A state of the search space.  A state is projected to an `Id`: the key
/// under which places are deduplicated and finalized.  Keeping the projection
/// explicit (even when it is the whole state) makes the deduplication
/// contract of the engine visible in the types.
pub trait Value: Sized + Copy {
    type Id;

    /// The identity of this state: two states with equal identity are
    /// treated as the same place by the search.
    spec fn ident(&self) -> Self::Id;

    /// Decides identity equality executably.
    fn same_ident(&self, other: &Self) -> (r: bool)
        ensures
            r == (self.ident() == other.ident()),
    ;
}

/// A search problem: a goal predicate and a lazily expanded neighbor
/// relation over states.  `edges(s)` lists the outgoing edges of `s` as
/// `(next state, edge cost)` pairs; costs are non-negative by type.
pub trait Space: Sized {
    type St: Value;

    /// Whether `s` is an accepted terminus.
    spec fn goal(&self, s: Self::St) -> bool;

    /// The outgoing edges of `s`.
    spec fn edges(&self, s: Self::St) -> Seq<(Self::St, u64)>;

    /// Executable goal test.
    fn is_goal(&self, s: &Self::St) -> (r: bool)
        ensures
            r == self.goal(*s),
    ;

    /// Executable neighbor expansion; materialized only when the engine
    /// actually expands `s`.
    fn neighbors(&self, s: &Self::St) -> (v: Vec<(Self::St, u64)>)
        ensures
            v@ == self.edges(*s),
    ;
}

/// The identity projection is injective: identities distinguish states.
/// Both observed uses of the engine pick the state itself as its identity,
/// which satisfies this trivially.  The optimality guarantees are stated
/// under this hypothesis; without it a goal state could be shadowed by a
/// distinct state of equal identity.
pub open spec fn distinct_idents<V: Value>() -> bool {
    forall|a: V, b: V| #[trigger] a.ident() == #[trigger] b.ident() ==> a == b
}

/// There is an edge from `a` to `b` of cost `w`.
pub open spec fn edge_to<Sp: Space>(g: Sp, a: Sp::St, b: Sp::St, w: u64) -> bool {
    exists|j: int| 0 <= j < g.edges(a).len() && g.edges(a)[j] == (b, w)
}

/// `p` is a walk through the graph whose steps have the costs `w`.
pub open spec fn is_path<Sp: Space>(g: Sp, p: Seq<Sp::St>, w: Seq<u64>) -> bool {
    &&& p.len() == w.len() + 1
    &&& forall|i: int| 0 <= i < w.len() ==> edge_to(g, #[trigger] p[i], p[i + 1], w[i])
}

/// The total cost of a walk with step costs `w`.
pub open spec fn path_cost(w: Seq<u64>) -> int
    decreases w.len(),
{
    if w.len() == 0 {
        0
    } else {
        w[0] + path_cost(w.subrange(1, w.len() as int))
    }
}

/// Some walk leads from `a` to `b` at total cost `d`.
pub open spec fn reaches<Sp: Space>(g: Sp, a: Sp::St, b: Sp::St, d: int) -> bool {
    exists|p: Seq<Sp::St>, w: Seq<u64>|
        {
            &&& #[trigger] is_path::<Sp>(g, p, w)
            &&& p.first() == a
            &&& p.last() == b
            &&& path_cost(w) == d
        }
}

/// Walk costs are sums of non-negative edge costs.
pub proof fn lemma_path_cost_nonneg(w: Seq<u64>)
    ensures
        path_cost(w) >= 0,
    decreases w.len(),
{
    if w.len() > 0 {
        lemma_path_cost_nonneg(w.subrange(1, w.len() as int));
    }
}

/// Splitting the last step off a walk splits its cost.
pub proof fn lemma_path_cost_drop_last(w: Seq<u64>)
    requires
        w.len() > 0,
    ensures
        path_cost(w) == path_cost(w.drop_last()) + w.last(),
    decreases w.len(),
{
    let tail = w.subrange(1, w.len() as int);
    assert(path_cost(w) == w[0] + path_cost(tail));
    if w.len() == 1 {
        assert(w.drop_last() =~= Seq::<u64>::empty());
        assert(tail =~= Seq::<u64>::empty());
        assert(path_cost(w) == w[0]);
        assert(w.last() == w[0]);
    } else {
        lemma_path_cost_drop_last(tail);
        let wdl = w.drop_last();
        assert(tail.drop_last() =~= wdl.subrange(1, wdl.len() as int));
        assert(tail.last() == w.last());
        assert(path_cost(wdl) == wdl[0] + path_cost(wdl.subrange(1, wdl.len() as int)));
        assert(wdl[0] == w[0]);
        assert(path_cost(w) == w[0] + path_cost(tail.drop_last()) + tail.last());
    }
}

/// Exhibits a walk as a witness for `reaches`.
pub proof fn lemma_reaches_intro<Sp: Space>(g: Sp, p: Seq<Sp::St>, w: Seq<u64>)
    requires
        is_path::<Sp>(g, p, w),
    ensures
        reaches::<Sp>(g, p.first(), p.last(), path_cost(w)),
{
    assert(is_path::<Sp>(g, p, w));
}

/// Every state reaches itself at cost zero.
pub proof fn lemma_reaches_self<Sp: Space>(g: Sp, a: Sp::St)
    ensures
        reaches::<Sp>(g, a, a, 0),
{
    let p = seq![a];
    let w = Seq::<u64>::empty();
    assert(is_path::<Sp>(g, p, w));
    assert(p.first() == a && p.last() == a);
    assert(path_cost(w) == 0);
}

/// Appending an edge to a walk extends reachability by the edge's cost.
pub proof fn lemma_reaches_step<Sp: Space>(g: Sp, a: Sp::St, b: Sp::St, c: Sp::St, d: int, w: u64)
    requires
        reaches::<Sp>(g, a, b, d),
        edge_to::<Sp>(g, b, c, w),
    ensures
        reaches::<Sp>(g, a, c, d + w),
{
    let (p0, w0) = choose|p0: Seq<Sp::St>, w0: Seq<u64>|
        {
            &&& #[trigger] is_path::<Sp>(g, p0, w0)
            &&& p0.first() == a
            &&& p0.last() == b
            &&& path_cost(w0) == d
        };
    let p1 = p0.push(c);
    let w1 = w0.push(w);
    assert forall|i: int| 0 <= i < w1.len() implies edge_to::<Sp>(
        g,
        #[trigger] p1[i],
        p1[i + 1],
        w1[i],
    ) by {
        if i < w0.len() {
            assert(p1[i] == p0[i] && p1[i + 1] == p0[i + 1] && w1[i] == w0[i]);
        } else {
            assert(p1[i] == b && p1[i + 1] == c && w1[i] == w);
        }
    }
    assert(is_path::<Sp>(g, p1, w1));
    lemma_path_cost_drop_last(w1);
    assert(w1.drop_last() =~= w0);
    assert(path_cost(w1) == d + w);
    assert(p1.first() == a && p1.last() == c);
}

/// Some state in `vis` has the identity of `x`.
pub open spec fn id_seen<V: Value>(vis: Seq<V>, x: V) -> bool {
    exists|k: int| 0 <= k < vis.len() && #[trigger] vis[k].ident() == x.ident()
}

/// `x` occurs among the entries of `es`.
pub open spec fn has_entry<V: Value>(es: Seq<(V, u64)>, x: (V, u64)) -> bool {
    exists|j: int| 0 <= j < es.len() && #[trigger] es[j] == x
}

/// Some entry of `es` holds a state with the identity of `x`.
pub open spec fn ident_among<V: Value>(es: Seq<(V, u64)>, x: V) -> bool {
    exists|k: int| 0 <= k < es.len() && (#[trigger] es[k]).0.ident() == x.ident()
}

/// Membership introduction for `has_entry`.
proof fn lemma_has_entry_at<V: Value>(es: Seq<(V, u64)>, j: int)
    requires
        0 <= j < es.len(),
    ensures
        has_entry(es, es[j]),
{
    let x = es[j];
    assert(es[j] == x);
}

/// Membership elimination for `has_entry`: an index where `x` occurs.
proof fn lemma_has_entry_index<V: Value>(es: Seq<(V, u64)>, x: (V, u64)) -> (j: int)
    requires
        has_entry(es, x),
    ensures
        0 <= j < es.len() && es[j] == x,
{
    choose|j: int| 0 <= j < es.len() && #[trigger] es[j] == x
}

/// The frontier holds an entry for state `t` costing at most `b`.
pub open spec fn frontier_le<V: Value>(fr: Seq<(V, u64)>, t: V, b: int) -> bool {
    exists|i: int| 0 <= i < fr.len() && (#[trigger] fr[i]).0 == t && fr[i].1 <= b
}

/// Finalized entries and the visited list record the same states, in order.
pub open spec fn fin_matches_vis<V: Value>(vis: Seq<V>, fin: Seq<(V, u64)>) -> bool {
    &&& fin.len() == vis.len()
    &&& forall|k: int| 0 <= k < fin.len() ==> (#[trigger] fin[k]).0 == vis[k]
}

/// Every entry of `es` carries the exact cost of some walk from `s0`.
pub open spec fn entries_sound<Sp: Space>(g: Sp, s0: Sp::St, es: Seq<(Sp::St, u64)>) -> bool {
    forall|i: int| 0 <= i < es.len() ==> reaches::<Sp>(g, s0, (#[trigger] es[i]).0, es[i].1 as int)
}

/// Costs of `es` are non-decreasing.
pub open spec fn costs_mono<V: Value>(es: Seq<(V, u64)>) -> bool {
    forall|k: int, l: int| 0 <= k <= l < es.len() ==> (#[trigger] es[k]).1 <= (#[trigger] es[l]).1
}

/// No frontier entry is cheaper than the most recently finalized cost.
pub open spec fn frontier_above<V: Value>(fr: Seq<(V, u64)>, fin: Seq<(V, u64)>) -> bool {
    fin.len() > 0 ==> forall|i: int| 0 <= i < fr.len() ==> fin.last().1 <= (#[trigger] fr[i]).1
}

/// Finalized identities are pairwise distinct: each place is finalized once.
pub open spec fn fin_distinct<V: Value>(fin: Seq<(V, u64)>) -> bool {
    forall|k: int, l: int|
        0 <= k < l < fin.len() ==> (#[trigger] fin[k]).0.ident() != (#[trigger] fin[l]).0.ident()
}

/// The start is either finalized or still on the frontier at cost zero.
pub open spec fn start_covered<V: Value>(s0: V, fr: Seq<(V, u64)>, vis: Seq<V>) -> bool {
    id_seen(vis, s0) || has_entry(fr, (s0, 0u64))
}

/// Edge `j` out of the finalized entry `en` is accounted for: its relaxation
/// would overflow the cost type, or leads to a finalized identity, or a
/// frontier entry at most as expensive as the relaxation is still pending.
pub open spec fn edge_covered<Sp: Space>(
    g: Sp,
    fr: Seq<(Sp::St, u64)>,
    vis: Seq<Sp::St>,
    en: (Sp::St, u64),
    j: int,
) -> bool {
    let e = g.edges(en.0)[j];
    ||| en.1 + e.1 > u64::MAX
    ||| id_seen(vis, e.0)
    ||| frontier_le(fr, e.0, en.1 + e.1)
}

/// Every edge out of every finalized state is accounted for.
pub open spec fn expanded<Sp: Space>(
    g: Sp,
    fr: Seq<(Sp::St, u64)>,
    vis: Seq<Sp::St>,
    fin: Seq<(Sp::St, u64)>,
) -> bool {
    forall|k: int, j: int|
        0 <= k < fin.len() && 0 <= j < g.edges(fin[k].0).len() ==> #[trigger] edge_covered::<
            Sp,
        >(g, fr, vis, fin[k], j)
}

/// Each finalized cost undercuts every walk from the start to that state.
pub open spec fn fin_optimal<Sp: Space>(g: Sp, s0: Sp::St, fin: Seq<(Sp::St, u64)>) -> bool {
    forall|k: int, d: int|
        0 <= k < fin.len() && #[trigger] reaches::<Sp>(g, s0, fin[k].0, d) ==> fin[k].1 as int <= d
}

/// Every result is a finalized goal state.
pub open spec fn results_sound<Sp: Space>(
    g: Sp,
    fin: Seq<(Sp::St, u64)>,
    res: Seq<(Sp::St, u64)>,
) -> bool {
    forall|l: int|
        0 <= l < res.len() ==> g.goal((#[trigger] res[l]).0) && has_entry(fin, res[l])
}

/// Every finalized goal state was handed out as a result.
pub open spec fn results_complete<Sp: Space>(
    g: Sp,
    fin: Seq<(Sp::St, u64)>,
    res: Seq<(Sp::St, u64)>,
) -> bool {
    forall|k: int| 0 <= k < fin.len() && g.goal((#[trigger] fin[k]).0) ==> has_entry(res, fin[k])
}

/// The newest result does not overtake the newest finalized cost.
pub open spec fn results_below_fin<V: Value>(fin: Seq<(V, u64)>, res: Seq<(V, u64)>) -> bool {
    res.len() > 0 ==> fin.len() > 0 && res.last().1 <= fin.last().1
}

/// Every entry of `es` occurs in `within`.
pub open spec fn entries_among<V: Value>(es: Seq<(V, u64)>, within: Seq<(V, u64)>) -> bool {
    forall|i: int| 0 <= i < es.len() ==> has_entry(within, #[trigger] es[i])
}

/// Every pushed entry is still pending on the frontier or its identity is
/// finalized.
pub open spec fn pushed_resolved<V: Value>(
    fr: Seq<(V, u64)>,
    vis: Seq<V>,
    pushed: Seq<(V, u64)>,
) -> bool {
    forall|j: int|
        0 <= j < pushed.len() ==> has_entry(fr, #[trigger] pushed[j]) || id_seen(vis, pushed[j].0)
}

/// A finalized identity was finalized at or below every cost it was ever
/// pushed with.
pub open spec fn pushed_min<V: Value>(fin: Seq<(V, u64)>, pushed: Seq<(V, u64)>) -> bool {
    forall|j: int, k: int|
        0 <= j < pushed.len() && 0 <= k < fin.len() && (#[trigger] pushed[j]).0.ident() == (
        #[trigger] fin[k]).0.ident() ==> fin[k].1 <= pushed[j].1
}

/// `a` is a prefix of `b`.
pub open spec fn seq_prefix<V>(a: Seq<V>, b: Seq<V>) -> bool {
    a.len() <= b.len() && forall|k: int| 0 <= k < a.len() ==> a[k] == b[k]
}

/// Identities seen in a list stay seen in any extension of it.
proof fn lemma_id_seen_mono<V: Value>(vis1: Seq<V>, vis2: Seq<V>, x: V)
    requires
        seq_prefix(vis1, vis2),
        id_seen(vis1, x),
    ensures
        id_seen(vis2, x),
{
    let k = choose|k: int| 0 <= k < vis1.len() && #[trigger] vis1[k].ident() == x.ident();
    assert(vis2[k].ident() == x.ident());
}

/// Every entry survives a push.
proof fn lemma_among_push<V: Value>(a: Seq<(V, u64)>, x: (V, u64))
    ensures
        entries_among(a, a.push(x)),
{
    assert forall|i: int| 0 <= i < a.len() implies has_entry(a.push(x), #[trigger] a[i]) by {
        assert(a.push(x)[i] == a[i]);
        lemma_has_entry_at(a.push(x), i);
    }
}

/// Occurring-in is transitive.
proof fn lemma_among_trans<V: Value>(a: Seq<(V, u64)>, b: Seq<(V, u64)>, c: Seq<(V, u64)>)
    requires
        entries_among(a, b),
        entries_among(b, c),
    ensures
        entries_among(a, c),
{
    assert forall|i: int| 0 <= i < a.len() implies has_entry(c, #[trigger] a[i]) by {
        let j = lemma_has_entry_index(b, a[i]);
        assert(has_entry(c, b[j]));
    }
}

/// Removing one entry keeps every other entry, and every kept entry stems
/// from the original sequence.
proof fn lemma_remove_among<V: Value>(a: Seq<(V, u64)>, idx: int)
    requires
        0 <= idx < a.len(),
    ensures
        entries_among(a.remove(idx), a),
        forall|i: int|
            0 <= i < a.len() && i != idx ==> has_entry(a.remove(idx), #[trigger] a[i]),
{
    let b = a.remove(idx);
    assert forall|i2: int| 0 <= i2 < b.len() implies has_entry(a, #[trigger] b[i2]) by {
        let j: int = if i2 < idx { i2 } else { i2 + 1 };
        assert(a[j] == b[i2]);
        lemma_has_entry_at(a, j);
    }
    assert forall|i: int| 0 <= i < a.len() && i != idx implies has_entry(b, #[trigger] a[i]) by {
        let j: int = if i < idx { i } else { i - 1 };
        assert(b[j] == a[i]);
        lemma_has_entry_at(b, j);
    }
}

/// Entry soundness restricts to any subcollection.
proof fn lemma_entries_sound_among<Sp: Space>(
    g: Sp,
    s0: Sp::St,
    a: Seq<(Sp::St, u64)>,
    b: Seq<(Sp::St, u64)>,
)
    requires
        entries_sound::<Sp>(g, s0, a),
        entries_among(b, a),
    ensures
        entries_sound::<Sp>(g, s0, b),
{
    assert forall|i: int| 0 <= i < b.len() implies reaches::<Sp>(
        g,
        s0,
        (#[trigger] b[i]).0,
        b[i].1 as int,
    ) by {
        let j = lemma_has_entry_index(a, b[i]);
    }
}

/// A cost floor on entries restricts to any subcollection.
proof fn lemma_frontier_above_among<V: Value>(
    a: Seq<(V, u64)>,
    b: Seq<(V, u64)>,
    fin: Seq<(V, u64)>,
)
    requires
        frontier_above(a, fin),
        entries_among(b, a),
    ensures
        frontier_above(b, fin),
{
    if fin.len() > 0 {
        assert forall|i: int| 0 <= i < b.len() implies fin.last().1 <= (#[trigger] b[i]).1 by {
            let j = lemma_has_entry_index(a, b[i]);
        }
    }
}

/// An accounted-for edge stays accounted for when the frontier keeps all
/// entries but the one at `idx`, whose state's identity is seen, and the
/// visited list only grows.
proof fn lemma_cover_shift<Sp: Space>(
    g: Sp,
    fr0: Seq<(Sp::St, u64)>,
    fr2: Seq<(Sp::St, u64)>,
    vis0: Seq<Sp::St>,
    vis2: Seq<Sp::St>,
    en: (Sp::St, u64),
    j: int,
    idx: int,
)
    requires
        edge_covered::<Sp>(g, fr0, vis0, en, j),
        0 <= idx < fr0.len(),
        forall|i: int| 0 <= i < fr0.len() && i != idx ==> has_entry(fr2, #[trigger] fr0[i]),
        id_seen(vis2, fr0[idx].0),
        seq_prefix(vis0, vis2),
    ensures
        edge_covered::<Sp>(g, fr2, vis2, en, j),
{
    let e = g.edges(en.0)[j];
    if en.1 + e.1 > u64::MAX {
    } else if id_seen(vis0, e.0) {
        lemma_id_seen_mono(vis0, vis2, e.0);
    } else {
        let i = choose|i: int|
            0 <= i < fr0.len() && (#[trigger] fr0[i]).0 == e.0 && fr0[i].1 <= en.1 + e.1;
        if i == idx {
            assert(fr0[idx].0 == e.0);
            assert(id_seen(vis2, e.0));
        } else {
            let i2 = lemma_has_entry_index(fr2, fr0[i]);
            assert(fr2[i2].0 == e.0 && fr2[i2].1 <= en.1 + e.1);
            assert(frontier_le(fr2, e.0, en.1 + e.1));
        }
    }
}

/// An accounted-for edge stays accounted for when the frontier and the
/// visited list only grow.
proof fn lemma_cover_mono<Sp: Space>(
    g: Sp,
    fr1: Seq<(Sp::St, u64)>,
    fr2: Seq<(Sp::St, u64)>,
    vis1: Seq<Sp::St>,
    vis2: Seq<Sp::St>,
    en: (Sp::St, u64),
    j: int,
)
    requires
        edge_covered::<Sp>(g, fr1, vis1, en, j),
        entries_among(fr1, fr2),
        seq_prefix(vis1, vis2),
    ensures
        edge_covered::<Sp>(g, fr2, vis2, en, j),
{
    let e = g.edges(en.0)[j];
    if en.1 + e.1 > u64::MAX {
    } else if id_seen(vis1, e.0) {
        lemma_id_seen_mono(vis1, vis2, e.0);
    } else if frontier_le(fr1, e.0, en.1 + e.1) {
        let i = choose|i: int|
            0 <= i < fr1.len() && (#[trigger] fr1[i]).0 == e.0 && fr1[i].1 <= en.1 + e.1;
        let i2 = lemma_has_entry_index(fr2, fr1[i]);
        assert(fr2[i2].0 == e.0 && fr2[i2].1 <= en.1 + e.1);
        assert(frontier_le(fr2, e.0, en.1 + e.1));
    }
}

/// The start stays covered when the popped entry's identity becomes seen and
/// the rest of the frontier survives.
proof fn lemma_start_covered_remove<V: Value>(
    s0: V,
    fr0: Seq<(V, u64)>,
    vis0: Seq<V>,
    vis2: Seq<V>,
    idx: int,
)
    requires
        start_covered(s0, fr0, vis0),
        0 <= idx < fr0.len(),
        id_seen(vis2, fr0[idx].0),
        seq_prefix(vis0, vis2),
    ensures
        start_covered(s0, fr0.remove(idx), vis2),
{
    if id_seen(vis0, s0) {
        lemma_id_seen_mono(vis0, vis2, s0);
    } else {
        let i = lemma_has_entry_index(fr0, (s0, 0u64));
        if i == idx {
            assert(fr0[idx].0 == s0);
        } else {
            lemma_remove_among(fr0, idx);
            assert(has_entry(fr0.remove(idx), fr0[i]));
        }
    }
}

/// The start stays covered when the frontier grows.
proof fn lemma_start_covered_push<V: Value>(s0: V, fr: Seq<(V, u64)>, vis: Seq<V>, x: (V, u64))
    requires
        start_covered(s0, fr, vis),
    ensures
        start_covered(s0, fr.push(x), vis),
{
    if !id_seen(vis, s0) {
        let i = lemma_has_entry_index(fr, (s0, 0u64));
        assert(fr.push(x)[i] == (s0, 0u64));
        lemma_has_entry_at(fr.push(x), i);
    }
}

/// Expansion coverage survives removal of the popped entry once its state's
/// identity is seen.
proof fn lemma_expanded_remove<Sp: Space>(
    g: Sp,
    fr0: Seq<(Sp::St, u64)>,
    vis0: Seq<Sp::St>,
    vis2: Seq<Sp::St>,
    fin: Seq<(Sp::St, u64)>,
    idx: int,
)
    requires
        expanded::<Sp>(g, fr0, vis0, fin),
        0 <= idx < fr0.len(),
        id_seen(vis2, fr0[idx].0),
        seq_prefix(vis0, vis2),
    ensures
        expanded::<Sp>(g, fr0.remove(idx), vis2, fin),
{
    lemma_remove_among(fr0, idx);
    assert forall|k: int, j: int|
        0 <= k < fin.len() && 0 <= j < g.edges(fin[k].0).len() implies #[trigger] edge_covered::<
        Sp,
    >(g, fr0.remove(idx), vis2, fin[k], j) by {
        lemma_cover_shift(g, fr0, fr0.remove(idx), vis0, vis2, fin[k], j, idx);
    }
}

/// Expansion coverage survives growth of the frontier.
proof fn lemma_expanded_push<Sp: Space>(
    g: Sp,
    fr: Seq<(Sp::St, u64)>,
    vis: Seq<Sp::St>,
    fin: Seq<(Sp::St, u64)>,
    x: (Sp::St, u64),
)
    requires
        expanded::<Sp>(g, fr, vis, fin),
    ensures
        expanded::<Sp>(g, fr.push(x), vis, fin),
{
    lemma_among_push(fr, x);
    assert forall|k: int, j: int|
        0 <= k < fin.len() && 0 <= j < g.edges(fin[k].0).len() implies #[trigger] edge_covered::<
        Sp,
    >(g, fr.push(x), vis, fin[k], j) by {
        lemma_cover_mono(g, fr, fr.push(x), vis, vis, fin[k], j);
    }
}

/// Partial coverage of one state's first `n` edges survives growth of the
/// frontier.
proof fn lemma_cover_upto_push<Sp: Space>(
    g: Sp,
    fr: Seq<(Sp::St, u64)>,
    vis: Seq<Sp::St>,
    en: (Sp::St, u64),
    n: int,
    x: (Sp::St, u64),
)
    requires
        forall|j2: int| 0 <= j2 < n ==> #[trigger] edge_covered::<Sp>(g, fr, vis, en, j2),
    ensures
        forall|j2: int| 0 <= j2 < n ==> #[trigger] edge_covered::<Sp>(g, fr.push(x), vis, en, j2),
{
    lemma_among_push(fr, x);
    assert forall|j2: int| 0 <= j2 < n implies #[trigger] edge_covered::<Sp>(
        g,
        fr.push(x),
        vis,
        en,
        j2,
    ) by {
        lemma_cover_mono(g, fr, fr.push(x), vis, vis, en, j2);
    }
}

/// Pushed entries stay resolved when the popped entry's identity is seen.
proof fn lemma_resolved_remove<V: Value>(
    fr0: Seq<(V, u64)>,
    vis0: Seq<V>,
    vis2: Seq<V>,
    pu: Seq<(V, u64)>,
    idx: int,
)
    requires
        pushed_resolved(fr0, vis0, pu),
        0 <= idx < fr0.len(),
        id_seen(vis2, fr0[idx].0),
        seq_prefix(vis0, vis2),
    ensures
        pushed_resolved(fr0.remove(idx), vis2, pu),
{
    let fr1 = fr0.remove(idx);
    lemma_remove_among(fr0, idx);
    assert forall|j: int| 0 <= j < pu.len() implies has_entry(fr1, #[trigger] pu[j]) || id_seen(
        vis2,
        pu[j].0,
    ) by {
        if has_entry(fr0, pu[j]) {
            let i = lemma_has_entry_index(fr0, pu[j]);
            if i == idx {
                assert(pu[j].0 == fr0[idx].0);
            } else {
                assert(has_entry(fr1, fr0[i]));
            }
        } else {
            lemma_id_seen_mono(vis0, vis2, pu[j].0);
        }
    }
}

/// Pushed entries stay resolved when a new entry joins both the frontier and
/// the push history.
proof fn lemma_resolved_push<V: Value>(
    fr: Seq<(V, u64)>,
    vis: Seq<V>,
    pu: Seq<(V, u64)>,
    x: (V, u64),
)
    requires
        pushed_resolved(fr, vis, pu),
    ensures
        pushed_resolved(fr.push(x), vis, pu.push(x)),
{
    let fr2 = fr.push(x);
    let pu2 = pu.push(x);
    lemma_among_push(fr, x);
    assert forall|j: int| 0 <= j < pu2.len() implies has_entry(fr2, #[trigger] pu2[j]) || id_seen(
        vis,
        pu2[j].0,
    ) by {
        if j < pu.len() {
            assert(pu2[j] == pu[j]);
            if has_entry(fr, pu[j]) {
                let i = lemma_has_entry_index(fr, pu[j]);
                assert(fr2[i] == pu[j]);
                lemma_has_entry_at(fr2, i);
            }
        } else {
            assert(pu2[j] == x);
            assert(fr2[fr.len() as int] == x);
            lemma_has_entry_at(fr2, fr.len() as int);
        }
    }
}

/// Entry soundness is kept when a sound entry is pushed.
proof fn lemma_entries_sound_push<Sp: Space>(
    g: Sp,
    s0: Sp::St,
    fr: Seq<(Sp::St, u64)>,
    x: (Sp::St, u64),
)
    requires
        entries_sound::<Sp>(g, s0, fr),
        reaches::<Sp>(g, s0, x.0, x.1 as int),
    ensures
        entries_sound::<Sp>(g, s0, fr.push(x)),
{
    assert forall|i: int| 0 <= i < fr.push(x).len() implies reaches::<Sp>(
        g,
        s0,
        (#[trigger] fr.push(x)[i]).0,
        fr.push(x)[i].1 as int,
    ) by {
        if i < fr.len() {
            assert(fr.push(x)[i] == fr[i]);
        } else {
            assert(fr.push(x)[i] == x);
        }
    }
}

/// The cost floor is kept when the pushed entry respects it.
proof fn lemma_frontier_above_push<V: Value>(fr: Seq<(V, u64)>, fin: Seq<(V, u64)>, x: (V, u64))
    requires
        frontier_above(fr, fin),
        fin.len() > 0 ==> fin.last().1 <= x.1,
    ensures
        frontier_above(fr.push(x), fin),
{
    if fin.len() > 0 {
        assert forall|i: int| 0 <= i < fr.push(x).len() implies fin.last().1 <= (#[trigger] fr.push(
            x,
        )[i]).1 by {
            if i < fr.len() {
                assert(fr.push(x)[i] == fr[i]);
            } else {
                assert(fr.push(x)[i] == x);
            }
        }
    }
}

/// Both sides of the frontier/history pairing grow together.
proof fn lemma_among_push_pair<V: Value>(fr: Seq<(V, u64)>, pu: Seq<(V, u64)>, x: (V, u64))
    requires
        entries_among(fr, pu),
    ensures
        entries_among(fr.push(x), pu.push(x)),
{
    assert forall|i: int| 0 <= i < fr.push(x).len() implies has_entry(
        pu.push(x),
        #[trigger] fr.push(x)[i],
    ) by {
        if i < fr.len() {
            assert(fr.push(x)[i] == fr[i]);
            let j = lemma_has_entry_index(pu, fr[i]);
            assert(pu.push(x)[j] == fr[i]);
            lemma_has_entry_at(pu.push(x), j);
        } else {
            assert(fr.push(x)[i] == x);
            assert(pu.push(x)[pu.len() as int] == x);
            lemma_has_entry_at(pu.push(x), pu.len() as int);
        }
    }
}

/// Occurring-in is kept when only the containing sequence grows.
proof fn lemma_among_grow<V: Value>(es: Seq<(V, u64)>, pu: Seq<(V, u64)>, x: (V, u64))
    requires
        entries_among(es, pu),
    ensures
        entries_among(es, pu.push(x)),
{
    lemma_among_push(pu, x);
    lemma_among_trans(es, pu, pu.push(x));
}

/// A minimal finalization cost survives a push whose cost is no smaller than
/// any finalized cost.
proof fn lemma_pushed_min_push<V: Value>(fin: Seq<(V, u64)>, pu: Seq<(V, u64)>, x: (V, u64))
    requires
        pushed_min(fin, pu),
        forall|k: int| 0 <= k < fin.len() ==> (#[trigger] fin[k]).1 <= x.1,
    ensures
        pushed_min(fin, pu.push(x)),
{
    let pu2 = pu.push(x);
    assert forall|j: int, k: int|
        0 <= j < pu2.len() && 0 <= k < fin.len() && (#[trigger] pu2[j]).0.ident() == (
        #[trigger] fin[k]).0.ident() implies fin[k].1 <= pu2[j].1 by {
        if j < pu.len() {
            assert(pu2[j] == pu[j]);
        } else {
            assert(pu2[j] == x);
        }
    }
}

/// The covering lemma behind Dijkstra's argument: as long as a walk from the
/// start ends at an identity that is not yet finalized, either the walk's
/// cost exceeds the cost type, or some frontier entry costs no more than the
/// whole walk.
proof fn lemma_covers<Sp: Space>(
    g: Sp,
    s0: Sp::St,
    fr: Seq<(Sp::St, u64)>,
    vis: Seq<Sp::St>,
    fin: Seq<(Sp::St, u64)>,
    p: Seq<Sp::St>,
    w: Seq<u64>,
)
    requires
        distinct_idents::<Sp::St>(),
        fin_matches_vis(vis, fin),
        start_covered(s0, fr, vis),
        expanded::<Sp>(g, fr, vis, fin),
        fin_optimal::<Sp>(g, s0, fin),
        is_path::<Sp>(g, p, w),
        p.first() == s0,
        !id_seen(vis, p.last()),
    ensures
        path_cost(w) > u64::MAX as int || exists|i: int|
            0 <= i < fr.len() && (#[trigger] fr[i]).1 as int <= path_cost(w),
    decreases p.len(),
{
    lemma_path_cost_nonneg(w);
    if p.len() == 1 {
        assert(p.last() == s0);
        assert(!id_seen(vis, s0));
        let i = lemma_has_entry_index(fr, (s0, 0u64));
        assert(fr[i].1 as int <= path_cost(w));
    } else {
        let q = p.drop_last();
        let w2 = w.drop_last();
        let prev = p[p.len() - 2];
        assert(q.last() == prev);
        assert(q.first() == s0);
        lemma_path_cost_drop_last(w);
        assert forall|i: int| 0 <= i < w2.len() implies edge_to::<Sp>(
            g,
            #[trigger] q[i],
            q[i + 1],
            w2[i],
        ) by {
            assert(edge_to::<Sp>(g, p[i], p[i + 1], w[i]));
            assert(q[i] == p[i] && q[i + 1] == p[i + 1] && w2[i] == w[i]);
        }
        assert(is_path::<Sp>(g, q, w2));
        if !id_seen(vis, prev) {
            lemma_covers(g, s0, fr, vis, fin, q, w2);
        } else {
            let k = choose|k: int| 0 <= k < vis.len() && #[trigger] vis[k].ident() == prev.ident();
            assert(vis[k] == prev);
            assert(fin[k].0 == prev);
            lemma_reaches_intro::<Sp>(g, q, w2);
            assert(reaches::<Sp>(g, s0, prev, path_cost(w2)));
            assert(fin[k].1 as int <= path_cost(w2));
            let lastw = w[w.len() - 1];
            assert(edge_to::<Sp>(g, p[w.len() - 1], p[w.len() as int], w[w.len() - 1]));
            assert(p[w.len() - 1] == prev && p[w.len() as int] == p.last());
            let j = choose|j: int|
                0 <= j < g.edges(prev).len() && g.edges(prev)[j] == (p.last(), lastw);
            assert(edge_covered::<Sp>(g, fr, vis, fin[k], j));
            let e = g.edges(fin[k].0)[j];
            assert(e == (p.last(), lastw));
            if fin[k].1 + e.1 > u64::MAX {
                lemma_path_cost_nonneg(w2);
                assert(path_cost(w) == path_cost(w2) + lastw);
                assert(path_cost(w) > u64::MAX as int);
            } else if id_seen(vis, e.0) {
                assert(false);
            } else {
                let i = choose|i: int|
                    0 <= i < fr.len() && (#[trigger] fr[i]).0 == e.0 && fr[i].1 <= fin[k].1 + e.1;
                assert(fr[i].1 as int <= path_cost(w2) + lastw);
                assert(fr[i].1 as int <= path_cost(w));
            }
        }
    }
}

/// When the cheapest frontier entry holds a not-yet-finalized identity, its
/// cost undercuts every walk from the start to that state.
proof fn lemma_min_entry_optimal<Sp: Space>(
    g: Sp,
    s0: Sp::St,
    fr: Seq<(Sp::St, u64)>,
    vis: Seq<Sp::St>,
    fin: Seq<(Sp::St, u64)>,
    s: Sp::St,
    c: u64,
    d: int,
)
    requires
        distinct_idents::<Sp::St>(),
        fin_matches_vis(vis, fin),
        start_covered(s0, fr, vis),
        expanded::<Sp>(g, fr, vis, fin),
        fin_optimal::<Sp>(g, s0, fin),
        !id_seen(vis, s),
        reaches::<Sp>(g, s0, s, d),
        forall|i: int| 0 <= i < fr.len() ==> c <= (#[trigger] fr[i]).1,
    ensures
        c as int <= d,
{
    let (p, w) = choose|p: Seq<Sp::St>, w: Seq<u64>|
        {
            &&& #[trigger] is_path::<Sp>(g, p, w)
            &&& p.first() == s0
            &&& p.last() == s
            &&& path_cost(w) == d
        };
    lemma_covers(g, s0, fr, vis, fin, p, w);
    if path_cost(w) > u64::MAX as int {
        assert(c as int <= u64::MAX as int);
    } else {
        let i = choose|i: int| 0 <= i < fr.len() && (#[trigger] fr[i]).1 as int <= path_cost(w);
        assert(c <= fr[i].1);
    }
}

/// One pull of the engine: the next finalized goal, or one unit of progress,
/// or the news that the frontier is drained.
pub enum StepResult<St> {
    /// A goal state was finalized at the given cumulative cost.
    Found(St, u64),
    /// One frontier entry was processed without yielding a goal.
    Advanced,
    /// The frontier is empty; no further state is reachable.
    Exhausted,
}

/// A single-source best-first search in progress.  Owns the frontier and the
/// visited set of one search; the space is borrowed anew for each call and
/// must stay the one the engine was built with.
pub struct Dijkstra<Sp: Space> {
    frontier: Vec<(Sp::St, u64)>,
    visited: Vec<Sp::St>,
    space: Ghost<Sp>,
    start: Ghost<Sp::St>,
    fin: Ghost<Seq<(Sp::St, u64)>>,
    pushed: Ghost<Seq<(Sp::St, u64)>>,
    found: Ghost<Seq<(Sp::St, u64)>>,
}

impl<Sp: Space> Dijkstra<Sp> {
    /// The space this engine searches.
    pub closed spec fn space_v(&self) -> Sp {
        self.space@
    }

    /// The start state of this search.
    pub closed spec fn start_v(&self) -> Sp::St {
        self.start@
    }

    /// The goal states yielded so far, with their costs, oldest first.
    pub closed spec fn results(&self) -> Seq<(Sp::St, u64)> {
        self.found@
    }

    /// The states finalized so far, with their costs, oldest first.
    pub closed spec fn finalized(&self) -> Seq<(Sp::St, u64)> {
        self.fin@
    }

    /// Every `(state, cost)` entry ever placed on the frontier, the initial
    /// `(start, 0)` entry included.
    pub closed spec fn pushes(&self) -> Seq<(Sp::St, u64)> {
        self.pushed@
    }

    /// The frontier is drained: nothing is pending.
    pub closed spec fn drained(&self) -> bool {
        self.frontier@.len() == 0
    }

    /// A freshly constructed engine: nothing finalized, nothing yielded,
    /// exactly the start entry pending.
    pub closed spec fn fresh(&self) -> bool {
        &&& self.frontier@ =~= seq![(self.start@, 0u64)]
        &&& self.visited@ =~= Seq::<Sp::St>::empty()
        &&& self.fin@ =~= Seq::<(Sp::St, u64)>::empty()
        &&& self.found@ =~= Seq::<(Sp::St, u64)>::empty()
    }

    /// The engine's internal invariant.
    pub closed spec fn wf(&self) -> bool {
        let g = self.space@;
        let s0 = self.start@;
        let fr = self.frontier@;
        let vis = self.visited@;
        let fin = self.fin@;
        let res = self.found@;
        let pushed = self.pushed@;
        &&& fin_matches_vis(vis, fin)
        &&& entries_sound::<Sp>(g, s0, fr)
        &&& entries_sound::<Sp>(g, s0, fin)
        &&& costs_mono(fin)
        &&& frontier_above(fr, fin)
        &&& fin_distinct(fin)
        &&& start_covered(s0, fr, vis)
        &&& expanded::<Sp>(g, fr, vis, fin)
        &&& (distinct_idents::<Sp::St>() ==> fin_optimal::<Sp>(g, s0, fin))
        &&& results_sound::<Sp>(g, fin, res)
        &&& results_complete::<Sp>(g, fin, res)
        &&& costs_mono(res)
        &&& results_below_fin(fin, res)
        &&& entries_among(fr, pushed)
        &&& entries_among(fin, pushed)
        &&& pushed_resolved(fr, vis, pushed)
        &&& pushed_min(fin, pushed)
    }

    /// Builds an engine for one search from `start` over `space`.
    pub fn new(start: Sp::St, space: &Sp) -> (d: Self)
        ensures
            d.wf(),
            d.space_v() == *space,
            d.start_v() == start,
            d.results() =~= Seq::<(Sp::St, u64)>::empty(),
            d.finalized() =~= Seq::<(Sp::St, u64)>::empty(),
            d.pushes() =~= seq![(start, 0u64)],
            d.fresh(),
            !d.drained(),
    {
        let mut frontier: Vec<(Sp::St, u64)> = Vec::new();
        frontier.push((start, 0));
        let d = Dijkstra {
            frontier,
            visited: Vec::<Sp::St>::new(),
            space: Ghost(*space),
            start: Ghost(start),
            fin: Ghost(Seq::empty()),
            pushed: Ghost(Seq::empty().push((start, 0u64))),
            found: Ghost(Seq::empty()),
        };
        proof {
            assert(d.frontier@ =~= seq![(start, 0u64)]);
            lemma_reaches_self::<Sp>(*space, start);
            assert(d.frontier@[0] == (start, 0u64));
            lemma_has_entry_at(d.frontier@, 0);
            lemma_has_entry_at(d.pushed@, 0);
            assert(d.pushed@[0] == d.frontier@[0]);
        }
        d
    }

    /// The index of a cheapest frontier entry.
    fn min_index(&self) -> (r: usize)
        requires
            self.frontier@.len() > 0,
        ensures
            0 <= r < self.frontier@.len(),
            forall|i: int|
                0 <= i < self.frontier@.len() ==> self.frontier@[r as int].1 <= (
                #[trigger] self.frontier@[i]).1,
    {
        let mut best: usize = 0;
        let mut i: usize = 1;
        while i < self.frontier.len()
            invariant
                0 <= best < i <= self.frontier@.len(),
                forall|k: int|
                    0 <= k < i ==> self.frontier@[best as int].1 <= (#[trigger] self.frontier@[k]).1,
            decreases self.frontier@.len() - i,
        {
            if self.frontier[i].1 < self.frontier[best].1 {
                best = i;
            }
            i = i + 1;
        }
        best
    }

    /// Whether the identity of `s` was already finalized.
    fn is_seen(&self, s: &Sp::St) -> (r: bool)
        ensures
            r == id_seen(self.visited@, *s),
    {
        let mut k: usize = 0;
        while k < self.visited.len()
            invariant
                0 <= k <= self.visited@.len(),
                forall|j: int| 0 <= j < k ==> #[trigger] self.visited@[j].ident() != s.ident(),
            decreases self.visited@.len() - k,
        {
            if self.visited[k].same_ident(s) {
                return true;
            }
            k = k + 1;
        }
        false
    }

    /// Processes one frontier entry: pops a cheapest pending `(state, cost)`
    /// pair, discards it if its identity was already finalized, and otherwise
    /// finalizes it, expands its neighbors, and hands it out if it satisfies
    /// the goal.  The first finalized goal is a cheapest reachable goal; all
    /// later ones follow in non-decreasing cost order.
    pub fn step(&mut self, space: &Sp) -> (r: StepResult<Sp::St>)
        requires
            old(self).wf(),
            *space == old(self).space_v(),
        ensures
            final(self).wf(),
            final(self).space_v() == old(self).space_v(),
            final(self).start_v() == old(self).start_v(),
            match r {
                StepResult::Found(s, c) => {
                    &&& final(self).results() =~= old(self).results().push((s, c))
                    &&& old(self).space_v().goal(s)
                    &&& reaches::<Sp>(old(self).space_v(), old(self).start_v(), s, c as int)
                    &&& (old(self).results().len() > 0 ==> old(self).results().last().1 <= c)
                    &&& (distinct_idents::<Sp::St>() ==> forall|t: Sp::St, d: int|
                        old(self).space_v().goal(t) && #[trigger] reaches::<Sp>(
                            old(self).space_v(),
                            old(self).start_v(),
                            t,
                            d,
                        ) ==> (exists|l: int|
                            0 <= l < old(self).results().len() && (#[trigger] old(
                                self,
                            ).results()[l]).0 == t) || c as int <= d)
                },
                StepResult::Advanced => final(self).results() == old(self).results(),
                StepResult::Exhausted => {
                    &&& *final(self) == *old(self)
                    &&& final(self).results() == old(self).results()
                    &&& (distinct_idents::<Sp::St>() ==> forall|t: Sp::St, d: int|
                        old(self).space_v().goal(t) && #[trigger] reaches::<Sp>(
                            old(self).space_v(),
                            old(self).start_v(),
                            t,
                            d,
                        ) && d <= u64::MAX as int ==> exists|l: int|
                            0 <= l < final(self).results().len()
                                && (#[trigger] final(self).results()[l]).0 == t)
                },
            },
            old(self).fresh() && old(self).space_v().goal(old(self).start_v()) ==> r
                == StepResult::Found(old(self).start_v(), 0u64),
            old(self).drained() <==> r is Exhausted,
    {
        let ghost g = self.space@;
        let ghost s0 = self.start@;
        let ghost fr0 = self.frontier@;
        let ghost vis0 = self.visited@;
        let ghost fin0 = self.fin@;
        let ghost res0 = self.found@;
        let ghost pu0 = self.pushed@;

        if self.frontier.len() == 0 {
            proof {
                if distinct_idents::<Sp::St>() {
                    assert forall|t: Sp::St, d: int|
                        g.goal(t) && #[trigger] reaches::<Sp>(g, s0, t, d) && d
                            <= u64::MAX as int implies exists|l: int|
                        0 <= l < res0.len() && (#[trigger] res0[l]).0 == t by {
                        if !id_seen(vis0, t) {
                            let (p, w) = choose|p: Seq<Sp::St>, w: Seq<u64>|
                                {
                                    &&& #[trigger] is_path::<Sp>(g, p, w)
                                    &&& p.first() == s0
                                    &&& p.last() == t
                                    &&& path_cost(w) == d
                                };
                            lemma_covers(g, s0, fr0, vis0, fin0, p, w);
                            assert(false);
                        }
                        let k = choose|k: int|
                            0 <= k < vis0.len() && #[trigger] vis0[k].ident() == t.ident();
                        assert(vis0[k] == t);
                        assert(fin0[k].0 == t);
                        let l = lemma_has_entry_index(res0, fin0[k]);
                        assert(res0[l].0 == t);
                    }
                }
            }
            return StepResult::Exhausted;
        }
        let idx = self.min_index();
        let entry = self.frontier.remove(idx);
        let s = entry.0;
        let c = entry.1;
        let ghost fr1 = self.frontier@;
        proof {
            assert(fr1 =~= fr0.remove(idx as int));
            assert((s, c) == fr0[idx as int]);
            assert(reaches::<Sp>(g, s0, s, c as int));
            lemma_remove_among(fr0, idx as int);
        }
        let seen = self.is_seen(&s);
        if seen {
            proof {
                assert(id_seen(vis0, s));
                lemma_entries_sound_among(g, s0, fr0, fr1);
                lemma_frontier_above_among(fr0, fr1, fin0);
                lemma_start_covered_remove(s0, fr0, vis0, vis0, idx as int);
                lemma_expanded_remove(g, fr0, vis0, vis0, fin0, idx as int);
                lemma_among_trans(fr1, fr0, pu0);
                lemma_resolved_remove(fr0, vis0, vis0, pu0, idx as int);
                assert(!old(self).fresh() || !g.goal(s0)) by {
                    if old(self).fresh() {
                        assert(vis0.len() == 0);
                        assert(!id_seen(vis0, s));
                    }
                }
            }
            return StepResult::Advanced;
        }
        // Finalize `s` at cost `c`: the first pop of this identity.
        proof {
            assert(!id_seen(vis0, s));
            if distinct_idents::<Sp::St>() {
                assert forall|d: int| #[trigger] reaches::<Sp>(g, s0, s, d) implies c as int
                    <= d by {
                    lemma_min_entry_optimal(g, s0, fr0, vis0, fin0, s, c, d);
                }
            }
        }
        let ghost fin1 = fin0.push((s, c));
        let ghost vis1 = vis0.push(s);
        self.visited.push(s);
        proof {
            self.fin@ = fin1;
            assert(self.visited@ == vis1);
            assert(seq_prefix(vis0, vis1));
            assert(id_seen(vis1, s)) by {
                assert(vis1[vis0.len() as int].ident() == s.ident());
            }
            assert(fin_matches_vis(vis1, fin1)) by {
                assert forall|k: int| 0 <= k < fin1.len() implies (#[trigger] fin1[k]).0
                    == vis1[k] by {
                    if k < fin0.len() {
                        assert(fin1[k] == fin0[k] && vis1[k] == vis0[k]);
                    } else {
                        assert(fin1[k] == (s, c) && vis1[k] == s);
                    }
                }
            }
            assert(entries_sound::<Sp>(g, s0, fin1)) by {
                assert forall|k: int| 0 <= k < fin1.len() implies reaches::<Sp>(
                    g,
                    s0,
                    (#[trigger] fin1[k]).0,
                    fin1[k].1 as int,
                ) by {
                    if k < fin0.len() {
                        assert(fin1[k] == fin0[k]);
                    } else {
                        assert(fin1[k] == (s, c));
                    }
                }
            }
            assert(costs_mono(fin1)) by {
                assert forall|k: int, l: int| 0 <= k <= l < fin1.len() implies (
                #[trigger] fin1[k]).1 <= (#[trigger] fin1[l]).1 by {
                    if l < fin0.len() {
                        assert(fin1[k] == fin0[k] && fin1[l] == fin0[l]);
                    } else {
                        assert(fin1[l] == (s, c));
                        if k < fin0.len() {
                            assert(fin1[k] == fin0[k]);
                            assert(fin0[k].1 <= fin0.last().1);
                            assert(fin0.last().1 <= fr0[idx as int].1);
                        }
                    }
                }
            }
            assert(fin_distinct(fin1)) by {
                assert forall|k: int, l: int| 0 <= k < l < fin1.len() implies (
                #[trigger] fin1[k]).0.ident() != (#[trigger] fin1[l]).0.ident() by {
                    if l < fin0.len() {
                        assert(fin1[k] == fin0[k] && fin1[l] == fin0[l]);
                    } else {
                        assert(fin1[l].0 == s);
                        assert(fin1[k] == fin0[k]);
                        assert(fin0[k].0 == vis0[k]);
                        assert(vis0[k].ident() != s.ident());
                    }
                }
            }
            lemma_entries_sound_among(g, s0, fr0, fr1);
            lemma_frontier_above_among(fr0, fr1, fin0);
            assert(frontier_above(fr1, fin1)) by {
                assert forall|i: int| 0 <= i < fr1.len() implies fin1.last().1 <= (
                #[trigger] fr1[i]).1 by {
                    let i0 = lemma_has_entry_index(fr0, fr1[i]);
                }
            }
            lemma_start_covered_remove(s0, fr0, vis0, vis1, idx as int);
            lemma_expanded_remove(g, fr0, vis0, vis1, fin0, idx as int);
            if distinct_idents::<Sp::St>() {
                assert(fin_optimal::<Sp>(g, s0, fin1)) by {
                    assert forall|k: int, d: int|
                        0 <= k < fin1.len() && #[trigger] reaches::<Sp>(
                            g,
                            s0,
                            fin1[k].0,
                            d,
                        ) implies fin1[k].1 as int <= d by {
                        if k < fin0.len() {
                            assert(fin1[k] == fin0[k]);
                        } else {
                            assert(fin1[k] == (s, c));
                        }
                    }
                }
            }
            assert(results_sound::<Sp>(g, fin1, res0)) by {
                assert forall|l: int| 0 <= l < res0.len() implies g.goal((#[trigger] res0[l]).0)
                    && has_entry(fin1, res0[l]) by {
                    let k = lemma_has_entry_index(fin0, res0[l]);
                    assert(fin1[k] == res0[l]);
                    lemma_has_entry_at(fin1, k);
                }
            }
            assert(results_below_fin(fin1, res0)) by {
                if res0.len() > 0 {
                    assert(res0.last().1 <= fin0.last().1);
                    assert(fin0.last().1 <= fr0[idx as int].1);
                }
            }
            lemma_among_trans(fr1, fr0, pu0);
            assert(entries_among(fin1, pu0)) by {
                assert forall|k: int| 0 <= k < fin1.len() implies has_entry(
                    pu0,
                    #[trigger] fin1[k],
                ) by {
                    if k < fin0.len() {
                        assert(fin1[k] == fin0[k]);
                        assert(has_entry(pu0, fin0[k]));
                    } else {
                        assert(fin1[k] == fr0[idx as int]);
                        assert(has_entry(pu0, fr0[idx as int]));
                    }
                }
            }
            lemma_resolved_remove(fr0, vis0, vis1, pu0, idx as int);
            assert(pushed_min(fin1, pu0)) by {
                assert forall|j: int, k: int|
                    0 <= j < pu0.len() && 0 <= k < fin1.len() && (#[trigger] pu0[j]).0.ident() == (
                    #[trigger] fin1[k]).0.ident() implies fin1[k].1 <= pu0[j].1 by {
                    if k < fin0.len() {
                        assert(fin1[k] == fin0[k]);
                    } else {
                        assert(fin1[k] == (s, c));
                        if id_seen(vis0, pu0[j].0) {
                            let k2 = choose|k2: int|
                                0 <= k2 < vis0.len() && #[trigger] vis0[k2].ident()
                                    == pu0[j].0.ident();
                            assert(vis0[k2].ident() == s.ident());
                            assert(id_seen(vis0, s));
                            assert(false);
                        }
                        let i = lemma_has_entry_index(fr0, pu0[j]);
                        assert(c <= fr0[i].1);
                    }
                }
            }
        }
        let nbrs = space.neighbors(&s);
        let ghost es = g.edges(s);
        let mut jj: usize = 0;
        while jj < nbrs.len()
            invariant
                0 <= jj <= nbrs@.len(),
                nbrs@ == es,
                es == g.edges(s),
                *space == g,
                self.space@ == g,
                self.start@ == s0,
                self.visited@ == vis1,
                self.fin@ == fin1,
                self.found@ == res0,
                fin1 == fin0.push((s, c)),
                fin1.last() == (s, c),
                fin1.len() == fin0.len() + 1,
                reaches::<Sp>(g, s0, s, c as int),
                fin_matches_vis(vis1, fin1),
                entries_sound::<Sp>(g, s0, self.frontier@),
                entries_sound::<Sp>(g, s0, fin1),
                costs_mono(fin1),
                frontier_above(self.frontier@, fin1),
                fin_distinct(fin1),
                start_covered(s0, self.frontier@, vis1),
                expanded::<Sp>(g, self.frontier@, vis1, fin0),
                forall|j2: int|
                    0 <= j2 < jj ==> #[trigger] edge_covered::<Sp>(
                        g,
                        self.frontier@,
                        vis1,
                        (s, c),
                        j2,
                    ),
                distinct_idents::<Sp::St>() ==> fin_optimal::<Sp>(g, s0, fin1),
                results_sound::<Sp>(g, fin1, res0),
                results_complete::<Sp>(g, fin0, res0),
                costs_mono(res0),
                results_below_fin(fin1, res0),
                entries_among(self.frontier@, self.pushed@),
                entries_among(fin1, self.pushed@),
                pushed_resolved(self.frontier@, vis1, self.pushed@),
                pushed_min(fin1, self.pushed@),
            decreases nbrs@.len() - jj,
        {
            let ghost fr_a = self.frontier@;
            let ghost pu_a = self.pushed@;
            let pair = nbrs[jj];
            let t = pair.0;
            let wt = pair.1;
            proof {
                assert((t, wt) == es[jj as int]);
            }
            if wt <= u64::MAX - c {
                let nc = c + wt;
                self.frontier.push((t, nc));
                proof {
                    self.pushed@ = self.pushed@.push((t, nc));
                    let x = (t, nc);
                    assert(self.frontier@ == fr_a.push(x));
                    assert(self.pushed@ == pu_a.push(x));
                    assert(edge_to::<Sp>(g, s, t, wt)) by {
                        assert(g.edges(s)[jj as int] == (t, wt));
                    }
                    lemma_reaches_step(g, s0, s, t, c as int, wt);
                    lemma_entries_sound_push(g, s0, fr_a, x);
                    lemma_frontier_above_push(fr_a, fin1, x);
                    lemma_start_covered_push(s0, fr_a, vis1, x);
                    lemma_expanded_push(g, fr_a, vis1, fin0, x);
                    lemma_cover_upto_push(g, fr_a, vis1, (s, c), jj as int, x);
                    assert(edge_covered::<Sp>(g, self.frontier@, vis1, (s, c), jj as int)) by {
                        assert(g.edges(s)[jj as int] == (t, wt));
                        assert(self.frontier@[fr_a.len() as int] == x);
                        assert(frontier_le(self.frontier@, t, c + wt));
                    }
                    lemma_among_push_pair(fr_a, pu_a, x);
                    lemma_among_grow(fin1, pu_a, x);
                    lemma_resolved_push(fr_a, vis1, pu_a, x);
                    assert forall|k: int| 0 <= k < fin1.len() implies (#[trigger] fin1[k]).1
                        <= x.1 by {
                        assert(fin1[k].1 <= fin1.last().1);
                    }
                    lemma_pushed_min_push(fin1, pu_a, x);
                }
            } else {
                proof {
                    assert(edge_covered::<Sp>(g, self.frontier@, vis1, (s, c), jj as int)) by {
                        assert(g.edges(s)[jj as int] == (t, wt));
                        assert(c + wt > u64::MAX);
                    }
                }
            }
            jj = jj + 1;
        }
        proof {
            assert(expanded::<Sp>(g, self.frontier@, vis1, fin1)) by {
                assert forall|k: int, j: int|
                    0 <= k < fin1.len() && 0 <= j < g.edges(fin1[k].0).len() implies #[trigger] edge_covered::<
                    Sp,
                >(g, self.frontier@, vis1, fin1[k], j) by {
                    if k < fin0.len() {
                        assert(fin1[k] == fin0[k]);
                        assert(edge_covered::<Sp>(g, self.frontier@, vis1, fin0[k], j));
                    } else {
                        assert(fin1[k] == (s, c));
                    }
                }
            }
        }
        let goal_here = space.is_goal(&s);
        if goal_here {
            let ghost res1 = res0.push((s, c));
            proof {
                self.found@ = res1;
                assert(results_sound::<Sp>(g, fin1, res1)) by {
                    assert forall|l: int| 0 <= l < res1.len() implies g.goal(
                        (#[trigger] res1[l]).0,
                    ) && has_entry(fin1, res1[l]) by {
                        if l < res0.len() {
                            assert(res1[l] == res0[l]);
                        } else {
                            assert(res1[l] == (s, c));
                            assert(fin1[fin0.len() as int] == (s, c));
                            lemma_has_entry_at(fin1, fin0.len() as int);
                        }
                    }
                }
                assert(results_complete::<Sp>(g, fin1, res1)) by {
                    assert forall|k: int|
                        0 <= k < fin1.len() && g.goal((#[trigger] fin1[k]).0) implies has_entry(
                        res1,
                        fin1[k],
                    ) by {
                        if k < fin0.len() {
                            assert(fin1[k] == fin0[k]);
                            let l = lemma_has_entry_index(res0, fin0[k]);
                            assert(res1[l] == fin1[k]);
                            lemma_has_entry_at(res1, l);
                        } else {
                            assert(res1[res0.len() as int] == fin1[k]);
                            lemma_has_entry_at(res1, res0.len() as int);
                        }
                    }
                }
                assert(costs_mono(res1)) by {
                    assert forall|k: int, l: int| 0 <= k <= l < res1.len() implies (
                    #[trigger] res1[k]).1 <= (#[trigger] res1[l]).1 by {
                        if l < res0.len() {
                            assert(res1[k] == res0[k] && res1[l] == res0[l]);
                        } else {
                            assert(res1[l] == (s, c));
                            if k < res0.len() {
                                assert(res1[k] == res0[k]);
                                assert(res0[k].1 <= res0.last().1);
                                assert(res0.last().1 <= fin0.last().1);
                                assert(fin0.last().1 <= fr0[idx as int].1);
                            }
                        }
                    }
                }
                assert(results_below_fin(fin1, res1));
                if distinct_idents::<Sp::St>() {
                    assert forall|t: Sp::St, d: int|
                        g.goal(t) && #[trigger] reaches::<Sp>(g, s0, t, d) implies (exists|l: int|
                        0 <= l < res0.len() && (#[trigger] res0[l]).0 == t) || c as int <= d by {
                        if id_seen(vis0, t) {
                            let k = choose|k: int|
                                0 <= k < vis0.len() && #[trigger] vis0[k].ident() == t.ident();
                            assert(vis0[k] == t);
                            assert(fin0[k].0 == t);
                            let l = lemma_has_entry_index(res0, fin0[k]);
                            assert(res0[l].0 == t);
                        } else {
                            lemma_min_entry_optimal(g, s0, fr0, vis0, fin0, t, c, d);
                        }
                    }
                }
                assert(res0.len() > 0 ==> res0.last().1 <= c) by {
                    if res0.len() > 0 {
                        assert(res0.last().1 <= fin0.last().1);
                        assert(fin0.last().1 <= fr0[idx as int].1);
                    }
                }
            }
            StepResult::Found(s, c)
        } else {
            proof {
                assert(results_complete::<Sp>(g, fin1, res0)) by {
                    assert forall|k: int|
                        0 <= k < fin1.len() && g.goal((#[trigger] fin1[k]).0) implies has_entry(
                        res0,
                        fin1[k],
                    ) by {
                        assert(k < fin0.len());
                        assert(fin1[k] == fin0[k]);
                    }
                }
                assert(!(old(self).fresh() && g.goal(s0))) by {
                    if old(self).fresh() {
                        assert(fr0 =~= seq![(s0, 0u64)]);
                        assert(fr0[idx as int] == (s0, 0u64));
                        assert(s == s0);
                    }
                }
            }
            StepResult::Advanced
        }
    }

    /// Pulls the next goal state: runs [`Self::step`] until a goal is
    /// finalized, the frontier drains, or `limit` entries were processed.
    /// The limit is the caller-imposed iteration bound for state spaces
    /// whose reachable component may be infinite; `Advanced` reports that
    /// the budget ran out with the search still in progress.
    pub fn next(&mut self, space: &Sp, limit: u64) -> (r: StepResult<Sp::St>)
        requires
            old(self).wf(),
            *space == old(self).space_v(),
        ensures
            final(self).wf(),
            final(self).space_v() == old(self).space_v(),
            final(self).start_v() == old(self).start_v(),
            match r {
                StepResult::Found(s, c) => {
                    &&& final(self).results() =~= old(self).results().push((s, c))
                    &&& old(self).space_v().goal(s)
                    &&& reaches::<Sp>(old(self).space_v(), old(self).start_v(), s, c as int)
                    &&& (old(self).results().len() > 0 ==> old(self).results().last().1 <= c)
                    &&& (distinct_idents::<Sp::St>() ==> forall|t: Sp::St, d: int|
                        old(self).space_v().goal(t) && #[trigger] reaches::<Sp>(
                            old(self).space_v(),
                            old(self).start_v(),
                            t,
                            d,
                        ) ==> (exists|l: int|
                            0 <= l < old(self).results().len() && (#[trigger] old(
                                self,
                            ).results()[l]).0 == t) || c as int <= d)
                },
                StepResult::Advanced => final(self).results() == old(self).results(),
                StepResult::Exhausted => {
                    &&& final(self).drained()
                    &&& final(self).results() == old(self).results()
                    &&& (distinct_idents::<Sp::St>() ==> forall|t: Sp::St, d: int|
                        old(self).space_v().goal(t) && #[trigger] reaches::<Sp>(
                            old(self).space_v(),
                            old(self).start_v(),
                            t,
                            d,
                        ) && d <= u64::MAX as int ==> exists|l: int|
                            0 <= l < final(self).results().len()
                                && (#[trigger] final(self).results()[l]).0 == t)
                },
            },
            limit >= 1 && old(self).fresh() && old(self).space_v().goal(old(self).start_v()) ==> r
                == StepResult::Found(old(self).start_v(), 0u64),
    {
        let mut k: u64 = 0;
        while k < limit
            invariant
                0 <= k <= limit,
                self.wf(),
                *space == old(self).space_v(),
                self.space_v() == old(self).space_v(),
                self.start_v() == old(self).start_v(),
                self.results() == old(self).results(),
                old(self).fresh() && old(self).space_v().goal(old(self).start_v()) ==> k == 0
                    && *self == *old(self),
            decreases limit - k,
        {
            let r = self.step(space);
            match r {
                StepResult::Advanced => {},
                _ => {
                    return r;
                },
            }
            k = k + 1;
        }
        StepResult::Advanced
    }

    /// Costs yielded by successive pulls never decrease.
    pub proof fn lemma_results_monotone(&self)
        requires
            self.wf(),
        ensures
            forall|k: int, l: int|
                0 <= k <= l < self.results().len() ==> (#[trigger] self.results()[k]).1 <= (
                #[trigger] self.results()[l]).1,
    {
    }

    /// Every yielded pair is a goal state together with the exact cost of a
    /// walk from the start to it.
    pub proof fn lemma_results_reached(&self)
        requires
            self.wf(),
        ensures
            forall|l: int|
                0 <= l < self.results().len() ==> self.space_v().goal(
                    (#[trigger] self.results()[l]).0,
                ) && reaches::<Sp>(
                    self.space_v(),
                    self.start_v(),
                    self.results()[l].0,
                    self.results()[l].1 as int,
                ),
    {
        assert forall|l: int| 0 <= l < self.results().len() implies self.space_v().goal(
            (#[trigger] self.results()[l]).0,
        ) && reaches::<Sp>(
            self.space_v(),
            self.start_v(),
            self.results()[l].0,
            self.results()[l].1 as int,
        ) by {
            let k = lemma_has_entry_index(self.finalized(), self.results()[l]);
        }
    }

    /// When no reachable state satisfies the goal, nothing is ever yielded.
    pub proof fn lemma_unreachable_goal_empty(&self)
        requires
            self.wf(),
            forall|t: Sp::St, d: int|
                #[trigger] reaches::<Sp>(self.space_v(), self.start_v(), t, d)
                    ==> !self.space_v().goal(t),
        ensures
            self.results().len() == 0,
    {
        if self.results().len() > 0 {
            self.lemma_results_reached();
            assert(reaches::<Sp>(
                self.space_v(),
                self.start_v(),
                self.results()[0].0,
                self.results()[0].1 as int,
            ));
            assert(false);
        }
    }

    /// Identity collapse: however often an identity was pushed onto the
    /// frontier, it is finalized at most once, at a cost no larger than any
    /// cost it was ever pushed with; and once the frontier has drained, every
    /// pushed identity has been finalized.
    pub proof fn lemma_identity_collapse(&self)
        requires
            self.wf(),
        ensures
            forall|k: int, l: int|
                0 <= k < l < self.finalized().len() ==> (#[trigger] self.finalized()[k]).0.ident()
                    != (#[trigger] self.finalized()[l]).0.ident(),
            forall|k: int|
                0 <= k < self.finalized().len() ==> has_entry(
                    self.pushes(),
                    #[trigger] self.finalized()[k],
                ),
            forall|j: int, k: int|
                0 <= j < self.pushes().len() && 0 <= k < self.finalized().len() && (
                #[trigger] self.pushes()[j]).0.ident() == (#[trigger] self.finalized()[k]).0.ident()
                    ==> self.finalized()[k].1 <= self.pushes()[j].1,
            self.drained() ==> forall|j: int|
                0 <= j < self.pushes().len() ==> ident_among(
                    self.finalized(),
                    (#[trigger] self.pushes()[j]).0,
                ),
    {
        if self.drained() {
            assert forall|j: int| 0 <= j < self.pushes().len() implies ident_among(
                self.finalized(),
                (#[trigger] self.pushes()[j]).0,
            ) by {
                if has_entry(self.frontier@, self.pushes()[j]) {
                    let i = lemma_has_entry_index(self.frontier@, self.pushes()[j]);
                    assert(false);
                }
                assert(id_seen(self.visited@, self.pushes()[j].0));
                let k = choose|k: int|
                    0 <= k < self.visited@.len() && #[trigger] self.visited@[k].ident()
                        == self.pushes()[j].0.ident();
                assert(self.finalized()[k].0 == self.visited@[k]);
                assert((self.finalized()[k]).0.ident() == self.pushes()[j].0.ident());
            }
        }
    }
}

} // verus!
