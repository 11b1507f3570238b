//! Strongly connected components (Tarjan) and shortest paths when every
//! negative edge joins two different components.
use vstd::prelude::*;

use crate::arith::{clamp64, sat_add};
use crate::graph::{EdgeIter, Graph, NodeId, incident, incident_below, lemma_incident_head, lemma_incident_members};
use crate::paths::{
    all_relaxed, edges_within, is_shortest, is_walk, lemma_max_abs_weight, lemma_pigeonhole, lemma_shortcut,
    lemma_walk_concat, lemma_walk_end, lemma_walk_push, lemma_walk_split, lemma_walk_weight_bound, max_abs_weight,
    node_at, reaches_negative_cycle, walk_weight, weights_within, abs_sum,
};
use crate::queue::MinQueue;
use crate::sssp::{INF, lemma_relaxed_estimates_exact, lemma_sum_lower, lemma_sum_update, sum_seq};

verus! {

/// A vector of `n` copies of `x`.
pub(crate) fn filled<T: Copy>(n: usize, x: T) -> (v: Vec<T>)
    ensures
        v@.len() == n,
        forall|i: int| 0 <= i < n ==> v@[i] == x,
{
    let mut v: Vec<T> = Vec::with_capacity(n);
    let mut i: usize = 0;
    while i < n
        invariant
            i <= n,
            v@.len() == i,
            forall|k: int| 0 <= k < i ==> v@[k] == x,
        decreases n - i,
    {
        v.push(x);
        i = i + 1;
    }
    v
}

/// Pushing `a` adds exactly `a` to what a sequence contains.
proof fn lemma_push_contains(s: Seq<int>, a: int, x: int)
    ensures
        s.push(a).contains(x) <==> (s.contains(x) || x == a),
{
    if s.contains(x) {
        let i = choose|i: int| 0 <= i < s.len() && s[i] == x;
        assert(s.push(a)[i] == x);
    }
    if x == a {
        assert(s.push(a)[s.len() as int] == x);
    }
    if s.push(a).contains(x) && x != a {
        let i = choose|i: int| 0 <= i < s.push(a).len() && s.push(a)[i] == x;
        assert(i < s.len());
        assert(s[i] == x);
    }
}

/// The work left to a stack of search frames: for each frame, the edges its
/// cursor has still to hand out, plus one for the frame itself.
spec fn frames_work(fs: Seq<(u32, EdgeIter)>) -> nat
    decreases fs.len(),
{
    if fs.len() == 0 {
        0
    } else {
        frames_work(fs.drop_last()) + fs.last().1.remaining().len() + 1
    }
}

/// `x` has been visited and has left the search stack: its component is
/// settled and labelled.
pub open spec fn settled(index: Seq<usize>, on_stack: Seq<bool>, x: int) -> bool {
    index[x] != usize::MAX && !on_stack[x]
}

/// Edge `e` leaves a settled node for a settled node of no larger label.
spec fn edge_descends(
    es: Seq<(u32, u32, i64)>,
    index: Seq<usize>,
    on_stack: Seq<bool>,
    comp: Seq<usize>,
    e: int,
) -> bool {
    settled(index, on_stack, es[e].0 as int) ==> settled(index, on_stack, es[e].1 as int)
        && comp[es[e].1 as int] <= comp[es[e].0 as int]
}

/// The search invariant for an explored edge `e` that leaves stack entry `i`:
/// its target has settled, or is on the stack with an index no smaller than
/// the low-link of the frame that owns entry `i`. Frame `j` sits at stack
/// position `sp[j]`, and has explored the out-edges with ids from `bs[j]` on.
spec fn explored_ok<'a>(
    es: Seq<(u32, u32, i64)>,
    stk: Seq<u32>,
    cs: Seq<(u32, EdgeIter<'a>)>,
    sp: Seq<int>,
    owner: Seq<int>,
    bs: Seq<int>,
    index: Seq<usize>,
    on_stack: Seq<bool>,
    lowlink: Seq<usize>,
    i: int,
    e: int,
) -> bool {
    (es[e].0 == stk[i] && (i == sp[owner[i]] ==> e >= bs[owner[i]])) ==> {
        let w = es[e].1 as int;
        settled(index, on_stack, w) || (on_stack[w] && index[w] >= lowlink[cs[owner[i]].0 as int])
    }
}

/// `a` reaches `b` along the edges of `es`.
pub open spec fn reaches(es: Seq<(u32, u32, i64)>, a: int, b: int) -> bool {
    exists|p: Seq<int>| #[trigger] is_walk(es, p, a, b)
}

/// Every node reaches itself.
proof fn lemma_reach_refl(es: Seq<(u32, u32, i64)>, a: int)
    ensures
        reaches(es, a, a),
{
    assert(is_walk(es, Seq::<int>::empty(), a, a));
}

/// An edge reaches from its source to its target.
proof fn lemma_reach_edge(es: Seq<(u32, u32, i64)>, e: int)
    requires
        0 <= e < es.len(),
    ensures
        reaches(es, es[e].0 as int, es[e].1 as int),
{
    let p = seq![e];
    assert(p.drop_last() =~= Seq::<int>::empty());
    assert(p.last() == e);
    assert(is_walk(es, p.drop_last(), es[e].0 as int, es[e].0 as int));
    assert(is_walk(es, p, es[e].0 as int, es[e].1 as int));
}

/// Reaching is transitive.
proof fn lemma_reach_trans(es: Seq<(u32, u32, i64)>, a: int, b: int, c: int)
    requires
        reaches(es, a, b),
        reaches(es, b, c),
    ensures
        reaches(es, a, c),
{
    let p = choose|p: Seq<int>| is_walk(es, p, a, b);
    let q = choose|q: Seq<int>| is_walk(es, q, b, c);
    lemma_walk_concat(es, p, q, a, b, c);
}

/// Labels never grow along a walk when no edge leads to a larger label: in
/// the labelling that `scc` returns, whatever a node reaches carries a label
/// no larger than its own.
pub proof fn lemma_walk_descends(es: Seq<(u32, u32, i64)>, comp: Seq<usize>, p: Seq<int>, s: int, t: int)
    requires
        is_walk(es, p, s, t),
        forall|e: int| 0 <= e < es.len() ==> comp[(#[trigger] es[e]).1 as int] <= comp[es[e].0 as int],
    ensures
        comp[t] <= comp[s],
    decreases p.len(),
{
    if p.len() > 0 {
        let e = p.last();
        lemma_walk_descends(es, comp, p.drop_last(), s, es[e].0 as int);
    }
}

/// Frame `j` of the search reaches frame `k`.
spec fn frame_chain<'a>(es: Seq<(u32, u32, i64)>, cs: Seq<(u32, EdgeIter<'a>)>, j: int, k: int) -> bool {
    reaches(es, cs[j].0 as int, cs[k].0 as int)
}

/// Stack entry `i` is reached from the frame that owns it.
spec fn from_owner<'a>(
    es: Seq<(u32, u32, i64)>,
    stk: Seq<u32>,
    cs: Seq<(u32, EdgeIter<'a>)>,
    owner: Seq<int>,
    i: int,
) -> bool {
    reaches(es, cs[owner[i]].0 as int, stk[i] as int)
}

/// A finished stack entry `i` reaches the frame that owns it.
spec fn to_owner<'a>(
    es: Seq<(u32, u32, i64)>,
    stk: Seq<u32>,
    cs: Seq<(u32, EdgeIter<'a>)>,
    sp: Seq<int>,
    owner: Seq<int>,
    i: int,
) -> bool {
    i != sp[owner[i]] ==> reaches(es, stk[i] as int, cs[owner[i]].0 as int)
}

/// Stack entry `q` has the low-link of entry `i` as its index and is
/// reached from it.
spec fn low_witness(
    es: Seq<(u32, u32, i64)>,
    stk: Seq<u32>,
    index: Seq<usize>,
    lowlink: Seq<usize>,
    i: int,
    q: int,
) -> bool {
    0 <= q < stk.len() && index[stk[q] as int] == lowlink[stk[i] as int] && reaches(
        es,
        stk[i] as int,
        stk[q] as int,
    )
}

/// Entry `i` reaches a stack entry whose index is its low-link.
spec fn low_reached(es: Seq<(u32, u32, i64)>, stk: Seq<u32>, index: Seq<usize>, lowlink: Seq<usize>, i: int) -> bool {
    exists|q: int| #[trigger] low_witness(es, stk, index, lowlink, i, q)
}

/// What the search knows of reachability: the frames form a chain, each
/// stack entry is reached from its owner, finished entries reach their
/// owner, and each entry reaches a stack entry indexed by its low-link.
spec fn search_reach<'a>(
    es: Seq<(u32, u32, i64)>,
    stk: Seq<u32>,
    cs: Seq<(u32, EdgeIter<'a>)>,
    sp: Seq<int>,
    owner: Seq<int>,
    index: Seq<usize>,
    lowlink: Seq<usize>,
) -> bool {
    &&& forall|j: int, k: int| 0 <= j <= k < cs.len() ==> #[trigger] frame_chain(es, cs, j, k)
    &&& forall|i: int| 0 <= i < stk.len() ==> #[trigger] from_owner(es, stk, cs, owner, i)
    &&& forall|i: int| 0 <= i < stk.len() ==> #[trigger] to_owner(es, stk, cs, sp, owner, i)
    &&& forall|i: int| 0 <= i < stk.len() ==> #[trigger] low_reached(es, stk, index, lowlink, i)
}

/// Two settled nodes with one label reach each other.
spec fn label_reach(
    es: Seq<(u32, u32, i64)>,
    index: Seq<usize>,
    on_stack: Seq<bool>,
    comp: Seq<usize>,
    x: int,
    y: int,
) -> bool {
    settled(index, on_stack, x) && settled(index, on_stack, y) && comp[x] == comp[y] ==> reaches(es, x, y)
}

/// Some node carries label `c`.
pub open spec fn label_in_use(labels: Seq<usize>, c: int) -> bool {
    exists|v: int| 0 <= v < labels.len() && #[trigger] labels[v] == c
}

/// Label `c` is carried by some settled node.
spec fn label_used(n: int, index: Seq<usize>, on_stack: Seq<bool>, comp: Seq<usize>, c: int) -> bool {
    exists|x: int| 0 <= x < n && settled(index, on_stack, x) && #[trigger] comp[x] == c
}

/// Settled nodes with equal labels reach each other.
spec fn labels_reach(
    es: Seq<(u32, u32, i64)>,
    n: int,
    index: Seq<usize>,
    on_stack: Seq<bool>,
    comp: Seq<usize>,
) -> bool {
    forall|x: int, y: int| 0 <= x < n && 0 <= y < n ==> #[trigger] label_reach(es, index, on_stack, comp, x, y)
}

/// The state of the depth-first search of `scc` between two steps: the search
/// stack `stk` lists visited nodes in increasing index order, the frames `cs`
/// sit on it at the increasing positions `sp`, entry `i` of the stack is owned
/// by the last frame at or below it, and every explored edge obeys
/// `explored_ok`.
spec fn search_ok<'a>(
    es: Seq<(u32, u32, i64)>,
    n: int,
    stk: Seq<u32>,
    cs: Seq<(u32, EdgeIter<'a>)>,
    sp: Seq<int>,
    owner: Seq<int>,
    bs: Seq<int>,
    index: Seq<usize>,
    on_stack: Seq<bool>,
    lowlink: Seq<usize>,
    root_idx: int,
    cnt: int,
) -> bool {
    &&& index.len() == n && on_stack.len() == n && lowlink.len() == n
    &&& forall|x: int|
        0 <= x < n && index[x] != usize::MAX ==> #[trigger] lowlink[x] <= index[x] && index[x] < cnt
    &&& forall|i: int|
        0 <= i < stk.len() ==> #[trigger] stk[i] < n && index[stk[i] as int] != usize::MAX
            && on_stack[stk[i] as int] && root_idx <= index[stk[i] as int]
    &&& stk.len() > 0 ==> index[stk[0] as int] == root_idx
    &&& forall|i: int, j: int|
        0 <= i < j < stk.len() ==> index[#[trigger] stk[i] as int] < index[#[trigger] stk[j] as int]
    &&& forall|x: int|
        0 <= x < n && #[trigger] on_stack[x] ==> stk.contains(x as u32) && root_idx <= lowlink[x]
    &&& sp.len() == cs.len() && bs.len() == cs.len() && owner.len() == stk.len()
    &&& forall|j: int|
        0 <= j < cs.len() ==> 0 <= #[trigger] sp[j] < stk.len() && stk[sp[j]] == cs[j].0 && 0
            <= bs[j] <= es.len() && cs[j].1.remaining() == incident_below(
            es,
            cs[j].0 as int,
            bs[j],
            true,
        )
    &&& forall|j: int, k: int| 0 <= j < k < cs.len() ==> #[trigger] sp[j] < #[trigger] sp[k]
    &&& cs.len() > 0 ==> sp[0] == 0
    &&& forall|i: int|
        0 <= i < stk.len() ==> 0 <= #[trigger] owner[i] < cs.len() && sp[owner[i]] <= i && (owner[i]
            + 1 < cs.len() ==> i < sp[owner[i] + 1])
    &&& forall|i: int, e: int|
        0 <= i < stk.len() && 0 <= e < es.len() ==> #[trigger] explored_ok(
            es,
            stk,
            cs,
            sp,
            owner,
            bs,
            index,
            on_stack,
            lowlink,
            i,
            e,
        )
}

/// A node on the stack sits at some position of it.
proof fn lemma_stack_position(stk: Seq<u32>, x: int) -> (q: int)
    requires
        stk.contains(x as u32),
        0 <= x <= u32::MAX,
    ensures
        0 <= q < stk.len(),
        stk[q] == x,
{
    choose|q: int| 0 <= q < stk.len() && stk[q] == x as u32
}

/// The search from a fresh root `r` starts with `r` alone on the stack and
/// one frame for it that has explored nothing.
proof fn lemma_tarjan_start<'a>(
    es: Seq<(u32, u32, i64)>,
    n: int,
    cs: Seq<(u32, EdgeIter<'a>)>,
    index0: Seq<usize>,
    on0: Seq<bool>,
    low0: Seq<usize>,
    comp: Seq<usize>,
    r: int,
    cnt: int,
)
    requires
        n <= u32::MAX,
        0 <= r < n,
        labels_reach(es, n, index0, on0, comp),
        0 <= cnt < n,
        index0.len() == n && on0.len() == n && low0.len() == n,
        forall|x: int|
            0 <= x < n && index0[x] != usize::MAX ==> #[trigger] low0[x] <= index0[x] && index0[x] < cnt,
        forall|x: int| 0 <= x < n ==> !(#[trigger] on0[x]),
        index0[r] == usize::MAX,
        cs.len() == 1,
        cs[0].0 == r,
        cs[0].1.remaining() == incident_below(es, r, es.len() as int, true),
    ensures
        search_ok(
            es,
            n,
            seq![r as u32],
            cs,
            seq![0int],
            seq![0int],
            seq![es.len() as int],
            index0.update(r, cnt as usize),
            on0.update(r, true),
            low0.update(r, cnt as usize),
            cnt,
            cnt + 1,
        ),
        forall|x: int|
            0 <= x < n ==> #[trigger] settled(index0.update(r, cnt as usize), on0.update(r, true), x)
                == settled(index0, on0, x),
        search_reach(
            es,
            seq![r as u32],
            cs,
            seq![0int],
            seq![0int],
            index0.update(r, cnt as usize),
            low0.update(r, cnt as usize),
        ),
        labels_reach(es, n, index0.update(r, cnt as usize), on0.update(r, true), comp),
        forall|c: int|
            #[trigger] label_used(n, index0.update(r, cnt as usize), on0.update(r, true), comp, c)
                == label_used(n, index0, on0, comp, c),
{
    let stk = seq![r as u32];
    let index = index0.update(r, cnt as usize);
    let on = on0.update(r, true);
    let low = low0.update(r, cnt as usize);
    assert((cnt as usize) as int == cnt);
    assert forall|x: int| 0 <= x < n && index[x] != usize::MAX implies #[trigger] low[x] <= index[x]
        && index[x] < cnt + 1 by {
        if x != r {
            assert(low0[x] <= index0[x]);
        }
    }
    assert forall|x: int| 0 <= x < n && #[trigger] on[x] implies stk.contains(x as u32) && cnt <= low[x] by {
        assert(x == r);
        assert(stk[0] == r);
    }
    assert forall|i: int, e: int| 0 <= i < stk.len() && 0 <= e < es.len() implies #[trigger] explored_ok(
        es,
        stk,
        cs,
        seq![0int],
        seq![0int],
        seq![es.len() as int],
        index,
        on,
        low,
        i,
        e,
    ) by {
    }
    lemma_reach_refl(es, r);
    assert(frame_chain(es, cs, 0, 0));
    assert(from_owner(es, stk, cs, seq![0int], 0));
    assert(low_witness(es, stk, index, low, 0, 0));
    assert forall|x: int, y: int| 0 <= x < n && 0 <= y < n implies #[trigger] label_reach(es, index, on, comp, x, y) by {
        assert(label_reach(es, index0, on0, comp, x, y));
    }
    assert forall|c: int| #[trigger] label_used(n, index, on, comp, c) == label_used(n, index0, on0, comp, c) by {
        if label_used(n, index, on, comp, c) {
            let x = choose|x: int| 0 <= x < n && settled(index, on, x) && #[trigger] comp[x] == c;
            assert(settled(index0, on0, x));
        }
        if label_used(n, index0, on0, comp, c) {
            let x = choose|x: int| 0 <= x < n && settled(index0, on0, x) && #[trigger] comp[x] == c;
            assert(settled(index, on, x));
        }
    }
}

/// Visiting the unvisited target `w` of the next edge `e` of the top frame
/// pushes `w` and a fresh frame for it.
proof fn lemma_tarjan_visit<'a>(
    es: Seq<(u32, u32, i64)>,
    n: int,
    stk0: Seq<u32>,
    cs0: Seq<(u32, EdgeIter<'a>)>,
    sp0: Seq<int>,
    owner0: Seq<int>,
    bs0: Seq<int>,
    index0: Seq<usize>,
    on0: Seq<bool>,
    low0: Seq<usize>,
    comp: Seq<usize>,
    cs: Seq<(u32, EdgeIter<'a>)>,
    root_idx: int,
    cnt: int,
    e: int,
    w: int,
)
    requires
        edges_within(es, n),
        n <= u32::MAX,
        search_ok(es, n, stk0, cs0, sp0, owner0, bs0, index0, on0, low0, root_idx, cnt),
        search_reach(es, stk0, cs0, sp0, owner0, index0, low0),
        labels_reach(es, n, index0, on0, comp),
        cs0.len() >= 1,
        root_idx <= cnt < n,
        ({
            let t = cs0.len() - 1;
            let s = incident_below(es, cs0[t].0 as int, bs0[t], true);
            s.len() > 0 && s[0] == e
        }),
        0 <= e < es.len(),
        es[e].1 == w,
        0 <= w < n,
        index0[w] == usize::MAX,
        cs.len() == cs0.len() + 1,
        forall|j: int| 0 <= j < cs0.len() - 1 ==> cs[j] == cs0[j],
        cs[cs0.len() - 1].0 == cs0[cs0.len() - 1].0,
        cs[cs0.len() - 1].1.remaining() == incident_below(es, cs0[cs0.len() - 1].0 as int, e, true),
        cs[cs0.len() as int].0 == w,
        cs[cs0.len() as int].1.remaining() == incident_below(es, w, es.len() as int, true),
    ensures
        search_ok(
            es,
            n,
            stk0.push(w as u32),
            cs,
            sp0.push(stk0.len() as int),
            owner0.push(cs0.len() as int),
            bs0.update(cs0.len() - 1, e).push(es.len() as int),
            index0.update(w, cnt as usize),
            on0.update(w, true),
            low0.update(w, cnt as usize),
            root_idx,
            cnt + 1,
        ),
        forall|x: int|
            0 <= x < n ==> #[trigger] settled(index0.update(w, cnt as usize), on0.update(w, true), x)
                == settled(index0, on0, x),
        search_reach(
            es,
            stk0.push(w as u32),
            cs,
            sp0.push(stk0.len() as int),
            owner0.push(cs0.len() as int),
            index0.update(w, cnt as usize),
            low0.update(w, cnt as usize),
        ),
        labels_reach(es, n, index0.update(w, cnt as usize), on0.update(w, true), comp),
        forall|c: int|
            #[trigger] label_used(n, index0.update(w, cnt as usize), on0.update(w, true), comp, c)
                == label_used(n, index0, on0, comp, c),
{
    let t = cs0.len() - 1;
    let u = cs0[t].0 as int;
    let s = incident_below(es, u, bs0[t], true);
    assert(stk0[sp0[t]] == cs0[t].0);
    lemma_incident_head(es, u, bs0[t], true);
    lemma_incident_members(es, u, bs0[t], true);
    let stk = stk0.push(w as u32);
    let sp = sp0.push(stk0.len() as int);
    let owner = owner0.push(cs0.len() as int);
    let bs = bs0.update(t, e).push(es.len() as int);
    let index = index0.update(w, cnt as usize);
    let on = on0.update(w, true);
    let low = low0.update(w, cnt as usize);
    let len0 = stk0.len() as int;
    assert(u != w) by {
        assert(stk0[sp0[t]] == cs0[t].0);
    }
    assert((cnt as usize) as int == cnt);
    assert forall|x: int| 0 <= x < n && index[x] != usize::MAX implies #[trigger] low[x] <= index[x]
        && index[x] < cnt + 1 by {
        if x != w {
            assert(low0[x] <= index0[x]);
        }
    }
    assert forall|i: int| 0 <= i < stk.len() implies #[trigger] stk[i] < n && index[stk[i] as int]
        != usize::MAX && on[stk[i] as int] && root_idx <= index[stk[i] as int] by {
        if i < len0 {
            assert(stk[i] == stk0[i]);
        }
    }
    assert forall|i: int, j: int| 0 <= i < j < stk.len() implies index[#[trigger] stk[i] as int]
        < index[#[trigger] stk[j] as int] by {
        assert(stk[i] == stk0[i]);
        if j < len0 {
            assert(stk[j] == stk0[j]);
        }
    }
    assert forall|x: int| 0 <= x < n && #[trigger] on[x] implies stk.contains(x as u32) && root_idx
        <= low[x] by {
        if x == w {
            assert(stk[len0] == w);
        } else {
            let q = lemma_stack_position(stk0, x);
            assert(stk[q] == x);
        }
    }
    assert forall|j: int| 0 <= j < cs.len() implies 0 <= #[trigger] sp[j] < stk.len() && stk[sp[j]]
        == cs[j].0 && 0 <= bs[j] <= es.len() && cs[j].1.remaining() == incident_below(
        es,
        cs[j].0 as int,
        bs[j],
        true,
    ) by {
        if j < cs0.len() {
            assert(stk[sp0[j]] == stk0[sp0[j]]);
        }
    }
    assert forall|i: int| 0 <= i < stk.len() implies 0 <= #[trigger] owner[i] < cs.len() && sp[owner[i]]
        <= i && (owner[i] + 1 < cs.len() ==> i < sp[owner[i] + 1]) by {
        if i < len0 {
            assert(owner[i] == owner0[i]);
        }
    }
    assert forall|i: int, f: int| 0 <= i < stk.len() && 0 <= f < es.len() implies #[trigger] explored_ok(
        es,
        stk,
        cs,
        sp,
        owner,
        bs,
        index,
        on,
        low,
        i,
        f,
    ) by {
        if i == len0 {
            assert(owner[i] == t + 1);
            assert(sp[t + 1] == len0);
            assert(bs[t + 1] == es.len());
        } else {
            let o = owner0[i];
            assert(owner[i] == o);
            assert(stk[i] == stk0[i]);
            assert(cs[o].0 == cs0[o].0);
            let x = es[f].1 as int;
            if es[f].0 == stk[i] && (i == sp[o] ==> f >= bs[o]) {
                if o == t && i == sp0[t] && f == e {
                    assert(on[w]);
                } else {
                    if o == t && i == sp0[t] && f < bs0[t] {
                        assert(s.contains(f));
                        let k = choose|k: int| 0 <= k < s.len() && s[k] == f;
                        assert(k == 0 || s[k] < s[0]);
                    }
                    assert(explored_ok(es, stk0, cs0, sp0, owner0, bs0, index0, on0, low0, i, f));
                    if x == w {
                        assert(!on0[w]) by {
                            if on0[w] {
                                let q = lemma_stack_position(stk0, w);
                            }
                        }
                    }
                    assert(cs0[o].0 != w) by {
                        assert(stk0[sp0[o]] == cs0[o].0);
                    }
                }
            }
        }
    }
    lemma_reach_edge(es, e);
    lemma_reach_refl(es, w);
    assert forall|j: int, k: int| 0 <= j <= k < cs.len() implies #[trigger] frame_chain(es, cs, j, k) by {
        if k == t + 1 {
            if j < k {
                assert(frame_chain(es, cs0, j, t));
                lemma_reach_trans(es, cs0[j].0 as int, u, w);
            }
        } else {
            assert(frame_chain(es, cs0, j, k));
        }
    }
    assert forall|i: int| 0 <= i < stk.len() implies #[trigger] from_owner(es, stk, cs, owner, i) by {
        if i < len0 {
            assert(from_owner(es, stk0, cs0, owner0, i));
            assert(stk[i] == stk0[i]);
        }
    }
    assert forall|i: int| 0 <= i < stk.len() implies #[trigger] to_owner(es, stk, cs, sp, owner, i) by {
        if i < len0 {
            assert(to_owner(es, stk0, cs0, sp0, owner0, i));
            assert(stk[i] == stk0[i]);
        }
    }
    assert forall|i: int| 0 <= i < stk.len() implies #[trigger] low_reached(es, stk, index, low, i) by {
        if i < len0 {
            assert(low_reached(es, stk0, index0, low0, i));
            let q = choose|q: int| #[trigger] low_witness(es, stk0, index0, low0, i, q);
            assert(stk[i] == stk0[i] && stk[q] == stk0[q]);
            assert(low_witness(es, stk, index, low, i, q));
        } else {
            assert(low_witness(es, stk, index, low, i, i));
        }
    }
    assert forall|x: int, y: int| 0 <= x < n && 0 <= y < n implies #[trigger] label_reach(es, index, on, comp, x, y) by {
        assert(label_reach(es, index0, on0, comp, x, y));
    }
    assert forall|c: int| #[trigger] label_used(n, index, on, comp, c) == label_used(n, index0, on0, comp, c) by {
        if label_used(n, index, on, comp, c) {
            let x = choose|x: int| 0 <= x < n && settled(index, on, x) && #[trigger] comp[x] == c;
            assert(settled(index0, on0, x));
        }
        if label_used(n, index0, on0, comp, c) {
            let x = choose|x: int| 0 <= x < n && settled(index0, on0, x) && #[trigger] comp[x] == c;
            assert(settled(index, on, x));
        }
    }
}

/// Following the next edge `e` of the top frame to an already visited node
/// `w` lowers the frame's low-link to `w`'s index when `w` is on the stack.
proof fn lemma_tarjan_revisit<'a>(
    es: Seq<(u32, u32, i64)>,
    n: int,
    stk0: Seq<u32>,
    cs0: Seq<(u32, EdgeIter<'a>)>,
    sp0: Seq<int>,
    owner0: Seq<int>,
    bs0: Seq<int>,
    index0: Seq<usize>,
    on0: Seq<bool>,
    low0: Seq<usize>,
    cs: Seq<(u32, EdgeIter<'a>)>,
    low: Seq<usize>,
    root_idx: int,
    cnt: int,
    e: int,
    w: int,
)
    requires
        edges_within(es, n),
        n <= u32::MAX,
        search_ok(es, n, stk0, cs0, sp0, owner0, bs0, index0, on0, low0, root_idx, cnt),
        search_reach(es, stk0, cs0, sp0, owner0, index0, low0),
        cs0.len() >= 1,
        ({
            let t = cs0.len() - 1;
            let s = incident_below(es, cs0[t].0 as int, bs0[t], true);
            s.len() > 0 && s[0] == e
        }),
        0 <= e < es.len(),
        es[e].1 == w,
        0 <= w < n,
        index0[w] != usize::MAX,
        cs.len() == cs0.len(),
        forall|j: int| 0 <= j < cs0.len() - 1 ==> cs[j] == cs0[j],
        cs[cs0.len() - 1].0 == cs0[cs0.len() - 1].0,
        cs[cs0.len() - 1].1.remaining() == incident_below(es, cs0[cs0.len() - 1].0 as int, e, true),
        low == if on0[w] && index0[w] < low0[cs0[cs0.len() - 1].0 as int] {
            low0.update(cs0[cs0.len() - 1].0 as int, index0[w])
        } else {
            low0
        },
    ensures
        search_ok(es, n, stk0, cs, sp0, owner0, bs0.update(cs0.len() - 1, e), index0, on0, low, root_idx, cnt),
        search_reach(es, stk0, cs, sp0, owner0, index0, low),
{
    let t = cs0.len() - 1;
    let u = cs0[t].0 as int;
    let s = incident_below(es, u, bs0[t], true);
    assert(stk0[sp0[t]] == cs0[t].0);
    lemma_incident_head(es, u, bs0[t], true);
    lemma_incident_members(es, u, bs0[t], true);
    let bs = bs0.update(t, e);
    assert(stk0[sp0[t]] == cs0[t].0);
    if on0[w] {
        let q = lemma_stack_position(stk0, w);
    }
    assert forall|x: int| 0 <= x < n && index0[x] != usize::MAX implies #[trigger] low[x] <= index0[x]
        && index0[x] < cnt by {
        assert(low0[x] <= index0[x]);
    }
    assert forall|x: int| 0 <= x < n && #[trigger] on0[x] implies stk0.contains(x as u32) && root_idx
        <= low[x] by {
        assert(root_idx <= low0[x]);
    }
    assert forall|i: int, f: int| 0 <= i < stk0.len() && 0 <= f < es.len() implies #[trigger] explored_ok(
        es,
        stk0,
        cs,
        sp0,
        owner0,
        bs,
        index0,
        on0,
        low,
        i,
        f,
    ) by {
        let o = owner0[i];
        assert(cs[o].0 == cs0[o].0);
        if es[f].0 == stk0[i] && (i == sp0[o] ==> f >= bs[o]) {
            if o == t && i == sp0[t] && f == e {
            } else {
                if o == t && i == sp0[t] && f < bs0[t] {
                    assert(s.contains(f));
                    let k = choose|k: int| 0 <= k < s.len() && s[k] == f;
                    assert(k == 0 || s[k] < s[0]);
                }
                assert(explored_ok(es, stk0, cs0, sp0, owner0, bs0, index0, on0, low0, i, f));
            }
        }
    }
    lemma_reach_edge(es, e);
    assert forall|j: int, k: int| 0 <= j <= k < cs.len() implies #[trigger] frame_chain(es, cs, j, k) by {
        assert(frame_chain(es, cs0, j, k));
    }
    assert forall|i: int| 0 <= i < stk0.len() implies #[trigger] from_owner(es, stk0, cs, owner0, i) by {
        assert(from_owner(es, stk0, cs0, owner0, i));
    }
    assert forall|i: int| 0 <= i < stk0.len() implies #[trigger] to_owner(es, stk0, cs, sp0, owner0, i) by {
        assert(to_owner(es, stk0, cs0, sp0, owner0, i));
    }
    assert forall|i: int| 0 <= i < stk0.len() implies #[trigger] low_reached(es, stk0, index0, low, i) by {
        if stk0[i] == u && on0[w] && index0[w] < low0[u] {
            let q = lemma_stack_position(stk0, w);
            assert(low_witness(es, stk0, index0, low, i, q));
        } else {
            assert(low_reached(es, stk0, index0, low0, i));
            let q = choose|q: int| #[trigger] low_witness(es, stk0, index0, low0, i, q);
            assert(low_witness(es, stk0, index0, low, i, q));
        }
    }

}

/// The low-link of the frame below the top after the top frame is done.
spec fn low_after(cs0: Seq<(u32, EdgeIter)>, low0: Seq<usize>) -> Seq<usize> {
    let t = cs0.len() - 1;
    if t >= 1 {
        let u = cs0[t].0 as int;
        let p = cs0[t - 1].0 as int;
        if low0[u] < low0[p] {
            low0.update(p, low0[u])
        } else {
            low0
        }
    } else {
        low0
    }
}

/// Owners after the top frame `t` retreats: its entries pass to frame `t - 1`.
spec fn retreat_owner(owner0: Seq<int>, t: int) -> Seq<int> {
    Seq::new(owner0.len(), |i: int| if owner0[i] == t { t - 1 } else { owner0[i] })
}

/// When the top frame has explored every edge and its node is not the root
/// of a component, the frame below it takes over its stack entries.
proof fn lemma_tarjan_retreat<'a>(
    es: Seq<(u32, u32, i64)>,
    n: int,
    stk0: Seq<u32>,
    cs0: Seq<(u32, EdgeIter<'a>)>,
    sp0: Seq<int>,
    owner0: Seq<int>,
    bs0: Seq<int>,
    index0: Seq<usize>,
    on0: Seq<bool>,
    low0: Seq<usize>,
    root_idx: int,
    cnt: int,
)
    requires
        edges_within(es, n),
        n <= u32::MAX,
        search_ok(es, n, stk0, cs0, sp0, owner0, bs0, index0, on0, low0, root_idx, cnt),
        search_reach(es, stk0, cs0, sp0, owner0, index0, low0),
        cs0.len() >= 1,
        incident_below(es, cs0[cs0.len() - 1].0 as int, bs0[cs0.len() - 1], true).len() == 0,
        low_after(cs0, low0)[cs0[cs0.len() - 1].0 as int] != index0[cs0[cs0.len() - 1].0 as int],
    ensures
        cs0.len() >= 2,
        search_ok(
            es,
            n,
            stk0,
            cs0.drop_last(),
            sp0.drop_last(),
            retreat_owner(owner0, cs0.len() - 1),
            bs0.drop_last(),
            index0,
            on0,
            low_after(cs0, low0),
            root_idx,
            cnt,
        ),
        search_reach(
            es,
            stk0,
            cs0.drop_last(),
            sp0.drop_last(),
            retreat_owner(owner0, cs0.len() - 1),
            index0,
            low_after(cs0, low0),
        ),
{
    let t = cs0.len() - 1;
    let u = cs0[t].0 as int;
    lemma_incident_members(es, u, bs0[t], true);
    assert(stk0[sp0[t]] == cs0[t].0);
    if t == 0 {
        assert(index0[u] == root_idx);
        assert(root_idx <= low0[u]);
    }
    let p = cs0[t - 1].0 as int;
    assert(stk0[sp0[t - 1]] == cs0[t - 1].0);
    assert(sp0[t - 1] < sp0[t]);
    assert(p != u);
    let low = low_after(cs0, low0);
    let cs = cs0.drop_last();
    let sp = sp0.drop_last();
    let bs = bs0.drop_last();
    let owner = retreat_owner(owner0, t);
    assert(low[u] == low0[u]);
    assert(low[p] <= low0[p] && low[p] <= low0[u]);
    assert forall|x: int| 0 <= x < n && index0[x] != usize::MAX implies #[trigger] low[x] <= index0[x]
        && index0[x] < cnt by {
        assert(low0[x] <= index0[x]);
    }
    assert forall|x: int| 0 <= x < n && #[trigger] on0[x] implies stk0.contains(x as u32) && root_idx
        <= low[x] by {
        assert(root_idx <= low0[x]);
        assert(root_idx <= low0[u]);
    }
    assert forall|j: int| 0 <= j < cs.len() implies 0 <= #[trigger] sp[j] < stk0.len() && stk0[sp[j]]
        == cs[j].0 && 0 <= bs[j] <= es.len() && cs[j].1.remaining() == incident_below(
        es,
        cs[j].0 as int,
        bs[j],
        true,
    ) by {
        assert(sp[j] == sp0[j]);
    }
    assert forall|j: int, k: int| 0 <= j < k < cs.len() implies #[trigger] sp[j] < #[trigger] sp[k] by {
        assert(sp[j] == sp0[j] && sp[k] == sp0[k]);
    }
    assert forall|i: int| 0 <= i < stk0.len() implies 0 <= #[trigger] owner[i] < cs.len() && sp[owner[i]]
        <= i && (owner[i] + 1 < cs.len() ==> i < sp[owner[i] + 1]) by {
        let o = owner0[i];
        if o == t {
            assert(sp0[t - 1] < sp0[t]);
        } else {
            assert(o < t);
            if o + 1 < t {
                assert(sp[o + 1] == sp0[o + 1]);
            }
        }
    }
    assert forall|i: int, f: int| 0 <= i < stk0.len() && 0 <= f < es.len() implies #[trigger] explored_ok(
        es,
        stk0,
        cs,
        sp,
        owner,
        bs,
        index0,
        on0,
        low,
        i,
        f,
    ) by {
        let o = owner0[i];
        if es[f].0 == stk0[i] && (i == sp[owner[i]] ==> f >= bs[owner[i]]) {
            assert(explored_ok(es, stk0, cs0, sp0, owner0, bs0, index0, on0, low0, i, f));
            if o == t {
                assert(owner[i] == t - 1);
                if i == sp0[t] {
                    if f < bs0[t] {
                        assert(incident_below(es, u, bs0[t], true).contains(f));
                    }
                }
            } else {
                assert(owner[i] == o);
                assert(cs[o] == cs0[o]);
                assert(low[cs0[o].0 as int] <= low0[cs0[o].0 as int]);
            }
        }
    }
    // `u` reaches the frame below it, through its low-link.
    let tp = sp0[t];
    assert(low_reached(es, stk0, index0, low0, tp));
    let qu = choose|q: int| #[trigger] low_witness(es, stk0, index0, low0, tp, q);
    let z = stk0[qu] as int;
    assert(low0[u] <= index0[u]);
    assert(qu < tp) by {
        if qu > tp {
            assert(index0[stk0[tp] as int] < index0[stk0[qu] as int]);
        }
    }
    let oq = owner0[qu];
    assert(oq <= t - 1) by {
        if oq == t {
            assert(sp0[t] <= qu);
        }
    }
    let f = cs0[oq].0 as int;
    assert(reaches(es, z, f)) by {
        if qu == sp0[oq] {
            assert(stk0[sp0[oq]] == cs0[oq].0);
            lemma_reach_refl(es, z);
        } else {
            assert(to_owner(es, stk0, cs0, sp0, owner0, qu));
        }
    }
    assert(frame_chain(es, cs0, oq, t - 1));
    lemma_reach_trans(es, u, z, f);
    lemma_reach_trans(es, u, f, p);
    assert(frame_chain(es, cs0, t - 1, t));
    assert forall|j: int, k: int| 0 <= j <= k < cs.len() implies #[trigger] frame_chain(es, cs, j, k) by {
        assert(frame_chain(es, cs0, j, k));
    }
    assert forall|i: int| 0 <= i < stk0.len() implies #[trigger] from_owner(es, stk0, cs, owner, i) by {
        assert(from_owner(es, stk0, cs0, owner0, i));
        if owner0[i] == t {
            lemma_reach_trans(es, p, u, stk0[i] as int);
        } else {
            assert(cs[owner0[i]] == cs0[owner0[i]]);
        }
    }
    assert forall|i: int| 0 <= i < stk0.len() implies #[trigger] to_owner(es, stk0, cs, sp, owner, i) by {
        assert(to_owner(es, stk0, cs0, sp0, owner0, i));
        if owner0[i] == t {
            assert(sp0[t - 1] < sp0[t]);
            if i != sp0[t] {
                lemma_reach_trans(es, stk0[i] as int, u, p);
            }
        } else {
            assert(cs[owner0[i]] == cs0[owner0[i]]);
        }
    }
    assert forall|i: int| 0 <= i < stk0.len() implies #[trigger] low_reached(es, stk0, index0, low, i) by {
        if stk0[i] == p && low0[u] < low0[p] {
            lemma_reach_trans(es, p, u, z);
            assert(low_witness(es, stk0, index0, low, i, qu));
        } else {
            assert(low_reached(es, stk0, index0, low0, i));
            let q = choose|q: int| #[trigger] low_witness(es, stk0, index0, low0, i, q);
            assert(low_witness(es, stk0, index0, low, i, q));
        }
    }

}

/// The stack entries from `b` on are the nodes on the stack with an index
/// at least `pop_bound(stk, index, b, cnt)`.
spec fn pop_bound(stk: Seq<u32>, index: Seq<usize>, b: int, cnt: int) -> int {
    if b < stk.len() {
        index[stk[b] as int] as int
    } else {
        cnt
    }
}

/// Popping entry `b - 1` of the stack moves the bound down to its index and
/// leaves every other node on the same side of it.
proof fn lemma_pop_step(
    stk: Seq<u32>,
    index: Seq<usize>,
    on: Seq<bool>,
    b: int,
    cnt: int,
    n: int,
)
    requires
        0 < b <= stk.len(),
        index.len() == n,
        on.len() == n,
        n <= u32::MAX,
        forall|i: int| 0 <= i < stk.len() ==> #[trigger] stk[i] < n && index[stk[i] as int] < cnt && on[stk[i] as int],
        forall|i: int, j: int|
            0 <= i < j < stk.len() ==> index[#[trigger] stk[i] as int] < index[#[trigger] stk[j] as int],
        forall|x: int| 0 <= x < n && #[trigger] on[x] ==> stk.contains(x as u32),
    ensures
        on[stk[b - 1] as int],
        index[stk[b - 1] as int] == pop_bound(stk, index, b - 1, cnt),
        forall|x: int|
            0 <= x < n && x != stk[b - 1] ==> ((#[trigger] on[x] && index[x] < pop_bound(stk, index, b, cnt))
                == (on[x] && index[x] < pop_bound(stk, index, b - 1, cnt))),
        forall|q: int| 0 <= q < stk.len() && #[trigger] stk[q] == stk[b - 1] ==> q == b - 1,
{
    let w = stk[b - 1];
    assert forall|x: int| 0 <= x < n && x != stk[b - 1] implies ((#[trigger] on[x] && index[x] < pop_bound(stk, index, b, cnt))
        == (on[x] && index[x] < pop_bound(stk, index, b - 1, cnt))) by {
        if on[x] {
            let q = lemma_stack_position(stk, x);
            assert(q != b - 1);
            if q < b - 1 {
                assert(index[stk[q] as int] < index[stk[b - 1] as int]);
                if b < stk.len() {
                    assert(index[stk[b - 1] as int] < index[stk[b] as int]);
                }
            } else {
                assert(index[stk[b - 1] as int] < index[stk[q] as int]);
                if b < stk.len() {
                    if q > b {
                        assert(index[stk[b] as int] < index[stk[q] as int]);
                    }
                }
            }
        }
    }
    assert forall|q: int| 0 <= q < stk.len() && #[trigger] stk[q] == stk[b - 1] implies q == b - 1 by {
        if q < b - 1 {
            assert(index[stk[q] as int] < index[stk[b - 1] as int]);
        } else if q > b - 1 {
            assert(index[stk[b - 1] as int] < index[stk[q] as int]);
        }
    }
}

/// When the top frame has explored every edge and its node `u` is the root
/// of a component, popping the stack down to `u` and giving the popped nodes
/// the next label keeps every edge from a settled node going to a settled
/// node of no larger label.
proof fn lemma_tarjan_settle<'a>(
    es: Seq<(u32, u32, i64)>,
    n: int,
    stk0: Seq<u32>,
    cs0: Seq<(u32, EdgeIter<'a>)>,
    sp0: Seq<int>,
    owner0: Seq<int>,
    bs0: Seq<int>,
    index0: Seq<usize>,
    on0: Seq<bool>,
    low0: Seq<usize>,
    comp0: Seq<usize>,
    on: Seq<bool>,
    comp: Seq<usize>,
    num: int,
    root_idx: int,
    cnt: int,
)
    requires
        edges_within(es, n),
        n <= u32::MAX,
        search_ok(es, n, stk0, cs0, sp0, owner0, bs0, index0, on0, low0, root_idx, cnt),
        search_reach(es, stk0, cs0, sp0, owner0, index0, low0),
        labels_reach(es, n, index0, on0, comp0),
        cs0.len() >= 1,
        incident_below(es, cs0[cs0.len() - 1].0 as int, bs0[cs0.len() - 1], true).len() == 0,
        low_after(cs0, low0)[cs0[cs0.len() - 1].0 as int] == index0[cs0[cs0.len() - 1].0 as int],
        comp0.len() == n,
        forall|e: int| 0 <= e < es.len() ==> #[trigger] edge_descends(es, index0, on0, comp0, e),
        forall|x: int| 0 <= x < n && settled(index0, on0, x) ==> #[trigger] comp0[x] < num,
        forall|c: int| 0 <= c < num ==> #[trigger] label_used(n, index0, on0, comp0, c),
        on.len() == n,
        comp.len() == n,
        forall|x: int|
            0 <= x < n ==> #[trigger] on[x] == (on0[x] && index0[x] < index0[cs0[cs0.len() - 1].0 as int]),
        forall|x: int|
            0 <= x < n ==> #[trigger] comp[x] == if on0[x] && index0[x] >= index0[cs0[cs0.len()
                - 1].0 as int] {
                num as usize
            } else {
                comp0[x]
            },
        0 <= num < usize::MAX,
    ensures
        forall|e: int| 0 <= e < es.len() ==> #[trigger] edge_descends(es, index0, on, comp, e),
        forall|x: int| 0 <= x < n && settled(index0, on, x) ==> #[trigger] comp[x] < num + 1,
        search_ok(
            es,
            n,
            stk0.subrange(0, sp0[cs0.len() - 1]),
            cs0.drop_last(),
            sp0.drop_last(),
            owner0.subrange(0, sp0[cs0.len() - 1]),
            bs0.drop_last(),
            index0,
            on,
            low_after(cs0, low0),
            root_idx,
            cnt,
        ),
        search_reach(
            es,
            stk0.subrange(0, sp0[cs0.len() - 1]),
            cs0.drop_last(),
            sp0.drop_last(),
            owner0.subrange(0, sp0[cs0.len() - 1]),
            index0,
            low_after(cs0, low0),
        ),
        labels_reach(es, n, index0, on, comp),
        forall|c: int| 0 <= c <= num ==> #[trigger] label_used(n, index0, on, comp, c),
{
    let t = cs0.len() - 1;
    let u = cs0[t].0 as int;
    let tp = sp0[t];
    lemma_incident_members(es, u, bs0[t], true);
    assert(stk0[tp] == cs0[t].0);
    let low = low_after(cs0, low0);
    if t >= 1 {
        let p = cs0[t - 1].0 as int;
        assert(stk0[sp0[t - 1]] == cs0[t - 1].0);
        assert(sp0[t - 1] < sp0[t]);
        assert(p != u);
    }
    assert(low[u] == low0[u]);
    let stk = stk0.subrange(0, tp);
    let cs = cs0.drop_last();
    let sp = sp0.drop_last();
    let bs = bs0.drop_last();
    let owner = owner0.subrange(0, tp);
    // A node on the old stack at or above `u` has frame `t` as its owner.
    assert forall|q: int| tp <= q < stk0.len() implies #[trigger] owner0[q] == t by {
        let o = owner0[q];
        if o < t {
            if o + 1 < t {
                assert(sp0[o + 1] < sp0[t]);
            }
        }
    }
    assert forall|e: int| 0 <= e < es.len() implies #[trigger] edge_descends(es, index0, on, comp, e) by {
        let y = es[e].0 as int;
        let x = es[e].1 as int;
        if settled(index0, on, y) {
            assert(edge_descends(es, index0, on0, comp0, e));
            if settled(index0, on0, y) {
            } else {
                let q = lemma_stack_position(stk0, y);
                if q < tp {
                    assert(index0[stk0[q] as int] < index0[stk0[tp] as int]);
                }
                assert(owner0[q] == t);
                if q == tp && e < bs0[t] {
                    assert(incident_below(es, u, bs0[t], true).contains(e));
                }
                assert(explored_ok(es, stk0, cs0, sp0, owner0, bs0, index0, on0, low0, q, e));
            }
        }
    }
    assert forall|i: int| 0 <= i < stk.len() implies #[trigger] stk[i] < n && index0[stk[i] as int]
        != usize::MAX && on[stk[i] as int] && root_idx <= index0[stk[i] as int] by {
        assert(stk[i] == stk0[i]);
        assert(index0[stk0[i] as int] < index0[stk0[tp] as int]);
    }
    assert forall|i: int, j: int| 0 <= i < j < stk.len() implies index0[#[trigger] stk[i] as int]
        < index0[#[trigger] stk[j] as int] by {
        assert(stk[i] == stk0[i] && stk[j] == stk0[j]);
    }
    assert forall|x: int| 0 <= x < n && #[trigger] on[x] implies stk.contains(x as u32) && root_idx
        <= low[x] by {
        let q = lemma_stack_position(stk0, x);
        if q >= tp {
            if q > tp {
                assert(index0[stk0[tp] as int] < index0[stk0[q] as int]);
            }
        }
        assert(stk[q] == x);
        assert(root_idx <= low0[x]);
        assert(root_idx <= low0[u]);
    }
    assert forall|x: int| 0 <= x < n && index0[x] != usize::MAX implies #[trigger] low[x] <= index0[x]
        && index0[x] < cnt by {
        assert(low0[x] <= index0[x]);
    }
    assert forall|j: int| 0 <= j < cs.len() implies 0 <= #[trigger] sp[j] < stk.len() && stk[sp[j]]
        == cs[j].0 && 0 <= bs[j] <= es.len() && cs[j].1.remaining() == incident_below(
        es,
        cs[j].0 as int,
        bs[j],
        true,
    ) by {
        assert(sp[j] == sp0[j]);
        assert(sp0[j] < sp0[t]);
    }
    assert forall|j: int, k: int| 0 <= j < k < cs.len() implies #[trigger] sp[j] < #[trigger] sp[k] by {
        assert(sp[j] == sp0[j] && sp[k] == sp0[k]);
    }
    assert forall|i: int| 0 <= i < stk.len() implies 0 <= #[trigger] owner[i] < cs.len() && sp[owner[i]]
        <= i && (owner[i] + 1 < cs.len() ==> i < sp[owner[i] + 1]) by {
        let o = owner0[i];
        assert(owner[i] == o);
        if o >= t {
            assert(sp0[t] <= i);
        }
        if o + 1 < t {
            assert(sp[o + 1] == sp0[o + 1]);
        }
    }
    assert forall|i: int, f: int| 0 <= i < stk.len() && 0 <= f < es.len() implies #[trigger] explored_ok(
        es,
        stk,
        cs,
        sp,
        owner,
        bs,
        index0,
        on,
        low,
        i,
        f,
    ) by {
        let o = owner0[i];
        assert(owner[i] == o);
        assert(stk[i] == stk0[i]);
        if o >= t {
            assert(sp0[t] <= i);
        }
        assert(cs[o] == cs0[o]);
        if es[f].0 == stk[i] && (i == sp[o] ==> f >= bs[o]) {
            assert(explored_ok(es, stk0, cs0, sp0, owner0, bs0, index0, on0, low0, i, f));
            assert(low[cs0[o].0 as int] <= low0[cs0[o].0 as int]);
        }
    }
    assert(low0[u] <= index0[u]);
    if t >= 1 {
        let p = cs0[t - 1].0 as int;
        assert(index0[stk0[sp0[t - 1]] as int] < index0[stk0[tp] as int]);
        assert(low0[p] <= index0[p]);
    }
    assert(low == low0);
    assert forall|j: int, k: int| 0 <= j <= k < cs.len() implies #[trigger] frame_chain(es, cs, j, k) by {
        assert(frame_chain(es, cs0, j, k));
    }
    assert forall|i: int| 0 <= i < stk.len() implies #[trigger] from_owner(es, stk, cs, owner, i) by {
        assert(from_owner(es, stk0, cs0, owner0, i));
        if owner0[i] >= t {
            assert(sp0[t] <= i);
        }
        assert(cs[owner0[i]] == cs0[owner0[i]]);
    }
    assert forall|i: int| 0 <= i < stk.len() implies #[trigger] to_owner(es, stk, cs, sp, owner, i) by {
        assert(to_owner(es, stk0, cs0, sp0, owner0, i));
        if owner0[i] >= t {
            assert(sp0[t] <= i);
        }
        assert(cs[owner0[i]] == cs0[owner0[i]]);
    }
    assert forall|i: int| 0 <= i < stk.len() implies #[trigger] low_reached(es, stk, index0, low, i) by {
        assert(low_reached(es, stk0, index0, low0, i));
        let q = choose|q: int| #[trigger] low_witness(es, stk0, index0, low0, i, q);
        assert(index0[stk0[i] as int] < index0[stk0[tp] as int]);
        assert(low0[stk0[i] as int] <= index0[stk0[i] as int]);
        assert(q < tp) by {
            if q >= tp {
                if q > tp {
                    assert(index0[stk0[tp] as int] < index0[stk0[q] as int]);
                }
            }
        }
        assert(low_witness(es, stk, index0, low, i, q));
    }
    // A newly settled node reaches `u` and is reached from it.
    assert forall|x: int| 0 <= x < n && on0[x] && index0[x] >= index0[u] implies reaches(es, x, u)
        && reaches(es, u, x) by {
        let q = lemma_stack_position(stk0, x);
        if q < tp {
            assert(index0[stk0[q] as int] < index0[stk0[tp] as int]);
        }
        assert(owner0[q] == t);
        assert(from_owner(es, stk0, cs0, owner0, q));
        if q == tp {
            lemma_reach_refl(es, u);
        } else {
            assert(to_owner(es, stk0, cs0, sp0, owner0, q));
        }
    }
    assert forall|x: int, y: int| 0 <= x < n && 0 <= y < n implies #[trigger] label_reach(es, index0, on, comp, x, y) by {
        if settled(index0, on, x) && settled(index0, on, y) && comp[x] == comp[y] {
            let nx = on0[x] && index0[x] >= index0[u];
            let ny = on0[y] && index0[y] >= index0[u];
            if nx && ny {
                lemma_reach_trans(es, x, u, y);
            } else if !nx && !ny {
                assert(label_reach(es, index0, on0, comp0, x, y));
            } else if nx {
                assert(settled(index0, on0, y));
            } else {
                assert(settled(index0, on0, x));
            }
        }
    }

    assert forall|c: int| 0 <= c <= num implies #[trigger] label_used(n, index0, on, comp, c) by {
        if c < num {
            assert(label_used(n, index0, on0, comp0, c));
            let x = choose|x: int| 0 <= x < n && settled(index0, on0, x) && #[trigger] comp0[x] == c;
            assert(settled(index0, on, x) && comp[x] == c);
        } else {
            assert(on0[u] && index0[u] >= index0[u]);
            assert(settled(index0, on, u) && comp[u] == c);
        }
    }

}

/// Pop the search stack down to and including `u`, its entry at `top_pos`,
/// taking each popped node off the stack and giving it the label `label`.
fn pop_component(
    stack: &mut Vec<u32>,
    on_stack: &mut Vec<bool>,
    comp: &mut Vec<usize>,
    u: u32,
    label: usize,
    Ghost(index): Ghost<Seq<usize>>,
    Ghost(top_pos): Ghost<int>,
    Ghost(cnt): Ghost<int>,
)
    requires
        old(on_stack)@.len() == index.len(),
        old(comp)@.len() == index.len(),
        index.len() <= u32::MAX,
        0 <= top_pos < old(stack)@.len(),
        old(stack)@[top_pos] == u,
        forall|i: int|
            0 <= i < old(stack)@.len() ==> #[trigger] old(stack)@[i] < index.len() && index[old(
                stack,
            )@[i] as int] < cnt && old(on_stack)@[old(stack)@[i] as int],
        forall|i: int, j: int|
            0 <= i < j < old(stack)@.len() ==> index[#[trigger] old(stack)@[i] as int]
                < index[#[trigger] old(stack)@[j] as int],
        forall|x: int| 0 <= x < index.len() && #[trigger] old(on_stack)@[x] ==> old(stack)@.contains(x as u32),
    ensures
        final(stack)@ == old(stack)@.subrange(0, top_pos),
        final(on_stack)@.len() == index.len(),
        final(comp)@.len() == index.len(),
        forall|x: int|
            0 <= x < index.len() ==> #[trigger] final(on_stack)@[x] == (old(on_stack)@[x] && index[x]
                < index[u as int]),
        forall|x: int|
            0 <= x < index.len() ==> #[trigger] final(comp)@[x] == if old(on_stack)@[x] && index[x]
                >= index[u as int] {
                label
            } else {
                old(comp)@[x]
            },
{
    let ghost stk0 = stack@;
    let ghost on0 = on_stack@;
    let ghost comp0 = comp@;
    let ghost n = index.len() as int;
    loop
        invariant_except_break
            top_pos < stack@.len(),
        invariant
            n == index.len(),
            n <= u32::MAX,
            on0.len() == n,
            on_stack@.len() == n,
            comp@.len() == n,
            0 <= top_pos < stk0.len(),
            stack@.len() <= stk0.len(),
            stk0[top_pos] == u,
            stack@ == stk0.subrange(0, stack@.len() as int),
            forall|i: int| 0 <= i < stk0.len() ==> #[trigger] stk0[i] < n && index[stk0[i] as int] < cnt && on0[stk0[i] as int],
            forall|i: int, j: int|
                0 <= i < j < stk0.len() ==> index[#[trigger] stk0[i] as int] < index[#[trigger] stk0[j] as int],
            forall|x: int| 0 <= x < n && #[trigger] on0[x] ==> stk0.contains(x as u32),
            forall|x: int|
                0 <= x < n ==> #[trigger] on_stack@[x] == (on0[x] && index[x] < pop_bound(
                    stk0,
                    index,
                    stack@.len() as int,
                    cnt,
                )),
            forall|x: int|
                0 <= x < n ==> #[trigger] comp@[x] == if on0[x] && index[x] >= pop_bound(
                    stk0,
                    index,
                    stack@.len() as int,
                    cnt,
                ) {
                    label
                } else {
                    comp0[x]
                },
        ensures
            stack@.len() == top_pos,
        decreases stack@.len(),
    {
        let ghost before = stack@.len() as int;
        let popped_node = stack.pop();
        match popped_node {
            None => {
                break;
            },
            Some(w) => {
                proof {
                    assert(w == stk0[before - 1]);
                    lemma_pop_step(stk0, index, on0, before, cnt, n);
                }
                on_stack.set(w as usize, false);
                comp.set(w as usize, label);
                proof {
                    assert(stack@ =~= stk0.subrange(0, before - 1));
                }
                if w == u {
                    break;
                }
            },
        }
    }
}

/// The arrays of Tarjan's algorithm.
struct Tarjan {
    index_counter: usize,
    stack: Vec<u32>,
    on_stack: Vec<bool>,
    index: Vec<usize>,
    lowlink: Vec<usize>,
    comp: Vec<usize>,
    num_sccs: usize,
}

/// The state of Tarjan's algorithm between two searches: the nodes below
/// `start` are visited, `order` lists the visited nodes, no node is on the
/// stack, and every edge out of a settled node descends in label.
spec fn between_searches(es: Seq<(u32, u32, i64)>, n: int, st: Tarjan, order: Seq<int>, start: int) -> bool {
    &&& st.on_stack@.len() == n && st.index@.len() == n && st.lowlink@.len() == n && st.comp@.len() == n
    &&& order.len() == st.index_counter
    &&& st.index_counter <= n
    &&& order.no_duplicates()
    &&& forall|i: int| 0 <= i < order.len() ==> 0 <= #[trigger] order[i] < n
    &&& forall|x: int| 0 <= x < n ==> (#[trigger] st.index@[x] != usize::MAX <==> order.contains(x))
    &&& forall|x: int|
        0 <= x < n && st.index@[x] != usize::MAX ==> #[trigger] st.lowlink@[x] <= st.index@[x]
            && st.index@[x] < st.index_counter
    &&& forall|x: int| 0 <= x < n ==> #[trigger] st.comp@[x] < st.num_sccs || st.comp@[x] == 0
    &&& st.stack@.len() == 0
    &&& forall|x: int| 0 <= x < n ==> !(#[trigger] st.on_stack@[x])
    &&& forall|x: int| 0 <= x < start ==> #[trigger] st.index@[x] != usize::MAX
    &&& forall|x: int| 0 <= x < n && settled(st.index@, st.on_stack@, x) ==> #[trigger] st.comp@[x] < st.num_sccs
    &&& forall|e: int| 0 <= e < es.len() ==> #[trigger] edge_descends(es, st.index@, st.on_stack@, st.comp@, e)
    &&& labels_reach(es, n, st.index@, st.on_stack@, st.comp@)
    &&& forall|c: int| 0 <= c < st.num_sccs ==> #[trigger] label_used(n, st.index@, st.on_stack@, st.comp@, c)
    &&& st.num_sccs <= st.index_counter
    &&& start > 0 ==> st.num_sccs >= 1
    &&& start == 0 ==> st.index_counter == 0
}

/// One depth-first search of Tarjan's algorithm, from the unvisited node
/// `start`: it labels every component that it finishes.
#[verifier::rlimit(100)]
#[verifier::spinoff_prover]
fn search_from(g: &Graph, st: &mut Tarjan, start: usize, Ghost(order0): Ghost<Seq<int>>) -> (order_out: Ghost<Seq<int>>)
    requires
        g.wf(),
        start < g.num_nodes(),
        between_searches(g.edge_list(), g.num_nodes() as int, *old(st), order0, start as int),
        old(st).index@[start as int] == usize::MAX,
    ensures
        between_searches(g.edge_list(), g.num_nodes() as int, *final(st), order_out@, start + 1),
{
    let ghost es = g.edge_list();
    proof {
        g.lemma_wf_edges();
    }
    let n = g.node_count();
    let ghost m = es.len() as int;
    let ghost mut order = order0;
        let ghost root_idx = st.index_counter as int;
        let ghost mut popped: nat = 0;
        proof {
            if st.index_counter >= n {
                lemma_pigeonhole(order.push(start as int), n as int);
            }
        }
        let ghost index_pre = st.index@;
        let ghost on_pre = st.on_stack@;
        let ghost lowlink_pre = st.lowlink@;
        proof {
            assert(forall|x: int|
                0 <= x < n && index_pre[x] != usize::MAX ==> #[trigger] lowlink_pre[x] <= index_pre[x]
                    && index_pre[x] < root_idx);
            assert(forall|x: int| 0 <= x < n ==> !(#[trigger] on_pre[x]));
        }
        st.index.set(start, st.index_counter);
        st.lowlink.set(start, st.index_counter);
        st.index_counter = st.index_counter + 1;
        st.stack.push(start as u32);
        st.on_stack.set(start, true);
        proof {
            let o0 = order;
            order = order.push(start as int);
            assert forall|x: int| 0 <= x < n implies (#[trigger] st.index@[x] != usize::MAX <==> order.contains(x)) by {
                lemma_push_contains(o0, start as int, x);
            }
        }
        let mut call_stack: Vec<(u32, EdgeIter)> = Vec::new();
        let it0 = g.out_edges(NodeId(start as u32));
        proof {
            lemma_incident_members(es, start as int, m, true);
        }
        call_stack.push((start as u32, it0));
        // Stack position, explored-edge bound and owned stack entries of
        // the frames of the search.
        let ghost mut sp: Seq<int> = seq![0int];
        let ghost mut owner: Seq<int> = seq![0int];
        let ghost mut bs: Seq<int> = seq![m];
        proof {
            assert(call_stack@.drop_last() =~= Seq::<(u32, EdgeIter)>::empty());
            assert(st.stack@ =~= seq![start as u32]);
            lemma_tarjan_start(es, n as int, call_stack@, index_pre, on_pre, lowlink_pre, st.comp@, start as int, root_idx);
            assert forall|e: int| 0 <= e < m implies #[trigger] edge_descends(es, st.index@, st.on_stack@, st.comp@, e) by {
                assert(edge_descends(es, index_pre, on_pre, st.comp@, e));
                assert(settled(st.index@, st.on_stack@, es[e].0 as int) == settled(index_pre, on_pre, es[e].0 as int));
                assert(settled(st.index@, st.on_stack@, es[e].1 as int) == settled(index_pre, on_pre, es[e].1 as int));
            }
            assert forall|x: int| 0 <= x < n && settled(st.index@, st.on_stack@, x) implies #[trigger] st.comp@[x] < st.num_sccs by {
                assert(settled(st.index@, st.on_stack@, x) == settled(index_pre, on_pre, x));
            }
        }
        loop
            invariant
                g.wf(),
                n == g.num_nodes(),
                n <= u32::MAX,
                m <= u32::MAX,
                m == es.len(),
                es == g.edge_list(),
                edges_within(es, n as int),
                start < n,
                st.on_stack@.len() == n,
                st.index@.len() == n,
                st.lowlink@.len() == n,
                st.comp@.len() == n,
                order.len() == st.index_counter,
                st.index_counter <= n,
                order.no_duplicates(),
                forall|i: int| 0 <= i < order.len() ==> 0 <= #[trigger] order[i] < n,
                forall|x: int|
                    0 <= x < n ==> (#[trigger] st.index@[x] != usize::MAX <==> order.contains(x)),
                forall|x: int| 0 <= x < n ==> #[trigger] st.comp@[x] < st.num_sccs || st.comp@[x] == 0,
                forall|x: int| 0 <= x <= start ==> #[trigger] st.index@[x] != usize::MAX,
                forall|x: int| 0 <= x < n && settled(st.index@, st.on_stack@, x) ==> #[trigger] st.comp@[x] < st.num_sccs,
                forall|e: int| 0 <= e < m ==> #[trigger] edge_descends(es, st.index@, st.on_stack@, st.comp@, e),
                search_ok(es, n as int, st.stack@, call_stack@, sp, owner, bs, st.index@, st.on_stack@, st.lowlink@, root_idx, st.index_counter as int),
                search_reach(es, st.stack@, call_stack@, sp, owner, st.index@, st.lowlink@),
                labels_reach(es, n as int, st.index@, st.on_stack@, st.comp@),
                forall|c: int| 0 <= c < st.num_sccs ==> #[trigger] label_used(n as int, st.index@, st.on_stack@, st.comp@, c),
                forall|i: int|
                    0 <= i < call_stack@.len() ==> (#[trigger] call_stack@[i]).0 < n
                        && st.index@[call_stack@[i].0 as int] != usize::MAX
                        && call_stack@[i].1.graph() == *g,
                forall|i: int, k: int|
                    0 <= i < call_stack@.len() && 0 <= k < (#[trigger] call_stack@[i]).1.remaining().len()
                        ==> 0 <= #[trigger] call_stack@[i].1.remaining()[k] < m,
                call_stack@.len() >= 1 ==> call_stack@[0].0 == start,
                st.index@[start as int] == root_idx,
                start == 0 ==> root_idx == 0,
                popped + call_stack@.len() + root_idx == st.index_counter,
                st.num_sccs <= root_idx + popped,
                start > 0 ==> st.num_sccs >= 1,
                call_stack@.len() == 0 && start == 0 ==> st.num_sccs >= 1,
            ensures
                call_stack@.len() == 0,
            decreases (m + 2) * (n - st.index_counter) + frames_work(call_stack@),
        {
            let ghost cs0 = call_stack@;
            let ghost stk0 = st.stack@;
            let ghost index0 = st.index@;
            let ghost on0 = st.on_stack@;
            let ghost low0 = st.lowlink@;
            let ghost comp0 = st.comp@;
            let ghost sp0 = sp;
            let ghost owner0 = owner;
            let ghost bs0 = bs;
            let ghost cnt0 = st.index_counter as int;
            let ghost work0 = (m + 2) * (n - st.index_counter) + frames_work(call_stack@);
            let top = call_stack.pop();
            let (u, mut it) = match top {
                None => {
                    proof {
                        if st.stack@.len() > 0 {
                            assert(0 <= owner[0] < call_stack@.len());
                        }
                    }
                    break;
                },
                Some(f) => f,
            };
            let ghost t = cs0.len() - 1;
            let ghost it0 = it;
            proof {
                assert(cs0[t] == (u, it0));
                assert(stk0[sp0[t]] == cs0[t].0);
            }
            let nx = it.next();
            match nx {
                Some(e) => {
                    proof {
                        assert(0 <= it0.remaining()[0] < m);
                        lemma_incident_head(es, u as int, bs0[t], true);
                        assert(it.remaining() =~= incident_below(es, u as int, e.0 as int, true));
                    }
                    call_stack.push((u, it));
                    let w = g.target(e).0 as usize;
                    if st.index[w] == usize::MAX {
                        proof {
                            if st.index_counter >= n {
                                lemma_pigeonhole(order.push(w as int), n as int);
                            }
                        }
                        st.index.set(w, st.index_counter);
                        st.lowlink.set(w, st.index_counter);
                        st.index_counter = st.index_counter + 1;
                        st.stack.push(w as u32);
                        st.on_stack.set(w, true);
                        proof {
                            let o0 = order;
                            order = order.push(w as int);
                            assert forall|x: int| 0 <= x < n implies (#[trigger] st.index@[x] != usize::MAX <==> order.contains(x)) by {
                                lemma_push_contains(o0, w as int, x);
                            }
                        }
                        let itw = g.out_edges(NodeId(w as u32));
                        proof {
                            lemma_incident_members(es, w as int, m, true);
                        }
                        call_stack.push((w as u32, itw));
                        proof {
                            let cs = call_stack@;
                            assert forall|j: int| 0 <= j < cs0.len() - 1 implies cs[j] == cs0[j] by {
                            }
                            lemma_tarjan_visit(es, n as int, stk0, cs0, sp0, owner0, bs0, index0, on0, low0, comp0, cs, root_idx, cnt0, e.0 as int, w as int);
                            sp = sp0.push(stk0.len() as int);
                            owner = owner0.push(cs0.len() as int);
                            bs = bs0.update(t, e.0 as int).push(m);
                            assert forall|e2: int| 0 <= e2 < m implies #[trigger] edge_descends(es, st.index@, st.on_stack@, st.comp@, e2) by {
                                assert(edge_descends(es, index0, on0, comp0, e2));
                                assert(settled(st.index@, st.on_stack@, es[e2].0 as int) == settled(index0, on0, es[e2].0 as int));
                                assert(settled(st.index@, st.on_stack@, es[e2].1 as int) == settled(index0, on0, es[e2].1 as int));
                            }
                            assert forall|x: int| 0 <= x < n && settled(st.index@, st.on_stack@, x) implies #[trigger] st.comp@[x] < st.num_sccs by {
                                assert(settled(st.index@, st.on_stack@, x) == settled(index0, on0, x));
                            }
                            assert(cs.drop_last().drop_last() =~= cs0.drop_last());
                            assert(cs.drop_last().last() == (u, it));
                            assert(frames_work(cs0) == frames_work(cs0.drop_last()) + it0.remaining().len() + 1);
                            assert(frames_work(cs.drop_last()) == frames_work(cs0.drop_last()) + it.remaining().len() + 1);
                            assert(frames_work(cs) == frames_work(cs.drop_last()) + itw.remaining().len() + 1);
                            assert(itw.remaining().len() <= m);
                            let k = n - st.index_counter;
                            assert((m + 2) * (k + 1) == (m + 2) * k + m + 2) by (nonlinear_arith);
                            assert((m + 2) * k + frames_work(cs) < work0);
                        }
                    } else {
                        if st.on_stack[w] {
                            if st.index[w] < st.lowlink[u as usize] {
                                st.lowlink.set(u as usize, st.index[w]);
                            }
                        }
                        proof {
                            let cs = call_stack@;
                            assert forall|j: int| 0 <= j < cs0.len() - 1 implies cs[j] == cs0[j] by {
                            }
                            lemma_tarjan_revisit(es, n as int, stk0, cs0, sp0, owner0, bs0, index0, on0, low0, cs, st.lowlink@, root_idx, cnt0, e.0 as int, w as int);
                            bs = bs0.update(t, e.0 as int);
                            assert(cs.drop_last() =~= cs0.drop_last());
                            assert(frames_work(cs0) == frames_work(cs0.drop_last()) + it0.remaining().len() + 1);
                            assert(frames_work(cs) == frames_work(cs0.drop_last()) + it.remaining().len() + 1);
                        }
                    }
                },
                None => {
                    proof {
                        popped = popped + 1;
                        assert(call_stack@ =~= cs0.drop_last());
                        assert(frames_work(cs0) == frames_work(cs0.drop_last()) + it0.remaining().len() + 1);
                        assert(stk0[sp0[t]] == u);
                    }
                    let len = call_stack.len();
                    if len > 0 {
                        let p = call_stack[len - 1].0 as usize;
                        if st.lowlink[u as usize] < st.lowlink[p] {
                            st.lowlink.set(p, st.lowlink[u as usize]);
                        }
                    }
                    proof {
                        assert(st.lowlink@ == low_after(cs0, low0));
                    }
                    if st.lowlink[u as usize] == st.index[u as usize] {
                        let ghost top_pos = sp0[t];
                        pop_component(&mut st.stack, &mut st.on_stack, &mut st.comp, u, st.num_sccs, Ghost(index0), Ghost(top_pos), Ghost(st.index_counter as int));
                        proof {
                            assert(st.stack@.len() == top_pos);
                            lemma_tarjan_settle(es, n as int, stk0, cs0, sp0, owner0, bs0, index0, on0, low0, comp0, st.on_stack@, st.comp@, st.num_sccs as int, root_idx, st.index_counter as int);
                            sp = sp0.drop_last();
                            bs = bs0.drop_last();
                            owner = owner0.subrange(0, top_pos);
                        }
                        st.num_sccs = st.num_sccs + 1;
                    } else {
                        proof {
                            lemma_tarjan_retreat(es, n as int, stk0, cs0, sp0, owner0, bs0, index0, on0, low0, root_idx, st.index_counter as int);
                            sp = sp0.drop_last();
                            bs = bs0.drop_last();
                            owner = retreat_owner(owner0, t);
                        }
                    }
                },
            }
        }
    
    proof {
        assert(call_stack@.len() == 0);
        if st.stack@.len() > 0 {
            assert(0 <= owner[0] < call_stack@.len());
        }
        assert forall|x: int| 0 <= x < n implies !(#[trigger] st.on_stack@[x]) by {
            if st.on_stack@[x] {
                assert(st.stack@.contains(x as u32));
            }
        }
    }
    Ghost(order)
}

/// Compute the SCC decomposition of `g` using Tarjan's iterative algorithm.
///
/// Returns a vector `comp[v.0]` ∈ `[0, num_sccs)` giving the SCC label for
/// each node. SCCs are numbered in **reverse topological order**: a
/// component is labelled only after every component it reaches, so no edge
/// leads to a larger label.
pub fn scc(g: &Graph) -> (r: (Vec<usize>, usize))
    requires
        g.wf(),
    ensures
        r.0@.len() == g.num_nodes(),
        r.1 <= g.num_nodes(),
        forall|v: int| 0 <= v < g.num_nodes() ==> #[trigger] r.0@[v] < r.1,
        forall|e: int|
            0 <= e < g.edge_list().len() ==> r.0@[(#[trigger] g.edge_list()[e]).1 as int] <= r.0@[g.edge_list()[e].0 as int],
        forall|x: int, y: int|
            0 <= x < g.num_nodes() && 0 <= y < g.num_nodes() ==> (#[trigger] r.0@[x] == #[trigger] r.0@[y]
                <==> (reaches(g.edge_list(), x, y) && reaches(g.edge_list(), y, x))),
        forall|c: int| 0 <= c < r.1 ==> #[trigger] label_in_use(r.0@, c),
{
    let ghost es = g.edge_list();
    proof {
        g.lemma_wf_edges();
    }
    let n = g.node_count();
    let mut st = Tarjan {
        index_counter: 0,
        stack: Vec::new(),
        on_stack: filled(n, false),
        index: filled(n, usize::MAX),
        lowlink: filled(n, 0usize),
        comp: filled(n, 0usize),
        num_sccs: 0,
    };
    // The visited nodes in the order of their visits.
    let ghost mut order: Seq<int> = Seq::empty();
    let mut start: usize = 0;
    while start < n
        invariant
            start <= n,
            n == g.num_nodes(),
            es == g.edge_list(),
            g.wf(),
            between_searches(es, n as int, st, order, start as int),
        decreases n - start,
    {
        if st.index[start] == usize::MAX {
            let Ghost(o) = search_from(g, &mut st, start, Ghost(order));
            proof {
                order = o;
            }
        }
        start = start + 1;
    }
    proof {
        assert forall|x: int| 0 <= x < n implies #[trigger] settled(st.index@, st.on_stack@, x) by {
            assert(st.index@[x] != usize::MAX);
            assert(!st.on_stack@[x]);
        }
        assert forall|e: int| 0 <= e < es.len() implies st.comp@[(#[trigger] es[e]).1 as int] <= st.comp@[es[e].0 as int] by {
            assert(edge_descends(es, st.index@, st.on_stack@, st.comp@, e));
            assert(settled(st.index@, st.on_stack@, es[e].0 as int));
        }
        assert forall|v: int| 0 <= v < n implies #[trigger] st.comp@[v] < st.num_sccs by {
            assert(settled(st.index@, st.on_stack@, v));
        }
        assert forall|x: int, y: int| 0 <= x < n && 0 <= y < n implies (#[trigger] st.comp@[x] == #[trigger] st.comp@[y]
            <==> (reaches(es, x, y) && reaches(es, y, x))) by {
            if st.comp@[x] == st.comp@[y] {
                assert(label_reach(es, st.index@, st.on_stack@, st.comp@, x, y));
                assert(label_reach(es, st.index@, st.on_stack@, st.comp@, y, x));
            }
            if reaches(es, x, y) && reaches(es, y, x) {
                let p = choose|p: Seq<int>| is_walk(es, p, x, y);
                let q = choose|q: Seq<int>| is_walk(es, q, y, x);
                lemma_walk_descends(es, st.comp@, p, x, y);
                lemma_walk_descends(es, st.comp@, q, y, x);
            }
        }
        assert forall|c: int| 0 <= c < st.num_sccs implies #[trigger] label_in_use(st.comp@, c) by {
            assert(label_used(n as int, st.index@, st.on_stack@, st.comp@, c));
        }
    }
    (st.comp, st.num_sccs)
}

/// `d` is at least the weight of some walk from `s` to `v`: an estimate
/// that never undercuts the distance.
pub open spec fn walk_bounded(es: Seq<(u32, u32, i64)>, s: int, v: int, d: int) -> bool {
    exists|p: Seq<int>| #[trigger] is_walk(es, p, s, v) && walk_weight(es, p) <= d
}

/// Estimates that every finite entry is backed by a walk.
pub open spec fn estimates_backed(es: Seq<(u32, u32, i64)>, s: int, dist: Seq<i64>) -> bool {
    forall|v: int| 0 <= v < dist.len() && #[trigger] dist[v] < INF ==> walk_bounded(es, s, v, dist[v] as int)
}

/// Edge `e`, if its source has a finite estimate, cannot lower its target's
/// estimate under saturating addition.
pub open spec fn sat_relaxed(es: Seq<(u32, u32, i64)>, dist: Seq<i64>, e: int) -> bool {
    dist[es[e].0 as int] < INF ==> dist[es[e].1 as int] <= clamp64(dist[es[e].0 as int] + es[e].2)
}

/// No edge from `u` into the component `sid` can lower an estimate.
spec fn relaxed_within(
    es: Seq<(u32, u32, i64)>,
    comp: Seq<usize>,
    sid: int,
    dist: Seq<i64>,
    u: int,
) -> bool {
    forall|e: int|
        0 <= e < es.len() && (#[trigger] es[e]).0 == u && comp[es[e].1 as int] == sid ==> sat_relaxed(
            es,
            dist,
            e,
        )
}

/// Every edge of negative weight joins two strongly connected components:
/// its target does not reach back to its source.
pub open spec fn negatives_cross(es: Seq<(u32, u32, i64)>) -> bool {
    forall|e: int| 0 <= e < es.len() && (#[trigger] es[e]).2 < 0 ==> !reaches(es, es[e].1 as int, es[e].0 as int)
}

/// The case in which `sssp_cross_scc` finds exact distances: negative edges
/// only join components, and `n` times the largest weight stays below `INF`.
pub open spec fn cross_scc_case(es: Seq<(u32, u32, i64)>, n: int) -> bool {
    &&& negatives_cross(es)
    &&& n * max_abs_weight(es) < INF
}

/// A walk all of whose edges weigh at least 0 weighs at least 0.
proof fn lemma_walk_nonneg(es: Seq<(u32, u32, i64)>, p: Seq<int>, s: int, t: int)
    requires
        is_walk(es, p, s, t),
        forall|i: int| 0 <= i < p.len() ==> es[#[trigger] p[i]].2 >= 0,
    ensures
        walk_weight(es, p) >= 0,
    decreases p.len(),
{
    if p.len() > 0 {
        let e = p.last();
        assert forall|i: int| 0 <= i < p.drop_last().len() implies es[#[trigger] p.drop_last()[i]].2 >= 0 by {
            assert(p.drop_last()[i] == p[i]);
        }
        lemma_walk_nonneg(es, p.drop_last(), s, es[e].0 as int);
        assert(es[p[p.len() - 1]].2 >= 0);
    }
}

/// When negative edges only join components, no cycle weighs less than 0.
proof fn lemma_cross_no_negative_cycle(es: Seq<(u32, u32, i64)>, c: Seq<int>, x: int)
    requires
        negatives_cross(es),
        is_walk(es, c, x, x),
    ensures
        walk_weight(es, c) >= 0,
{
    assert forall|i: int| 0 <= i < c.len() implies es[#[trigger] c[i]].2 >= 0 by {
        lemma_walk_split(es, c, x, x, i);
        lemma_walk_split(es, c, x, x, i + 1);
        let a = node_at(es, c, x, i);
        let b = node_at(es, c, x, i + 1);
        let pre = c.take(i + 1);
        assert(pre.last() == c[i]);
        assert(pre.drop_last() =~= c.take(i));
        lemma_walk_end(es, c.take(i), x, a);
        lemma_walk_end(es, c.take(i), x, es[c[i]].0 as int);
        assert(es[c[i]].0 == a);
        assert(es[c[i]].1 == b);
        lemma_walk_concat(es, c.skip(i + 1), c.take(i), b, x, a);
        assert(reaches(es, b, a));
    }
    lemma_walk_nonneg(es, c, x, x);
}

/// Relaxed estimates reach along a walk of fewer edges than `INF / w`: the
/// estimate at its end is finite and no heavier than the walk.
proof fn lemma_relaxed_short_walk(
    es: Seq<(u32, u32, i64)>,
    dist: Seq<i64>,
    s: int,
    w: int,
    p: Seq<int>,
    v: int,
)
    requires
        weights_within(es, w),
        w >= 0,
        edges_within(es, dist.len() as int),
        0 <= s < dist.len(),
        dist[s] <= 0,
        all_relaxed(es, dist),
        is_walk(es, p, s, v),
        p.len() * w < INF,
    ensures
        dist[v] <= walk_weight(es, p),
        dist[v] < INF,
    decreases p.len(),
{
    if p.len() > 0 {
        let e = p.last();
        let x = es[e].0 as int;
        let l = p.len() as int;
        assert((l - 1) * w <= l * w) by (nonlinear_arith)
            requires
                w >= 0,
                l >= 1,
        ;
        lemma_relaxed_short_walk(es, dist, s, w, p.drop_last(), x);
        lemma_walk_weight_bound(es, p, s, v, w);
        assert(es[e].0 < dist.len() && es[e].1 < dist.len());
        assert(dist[es[e].1 as int] <= dist[es[e].0 as int] + es[e].2);
    }
}

/// When negative edges only join components and `n·W < INF`, estimates that
/// are backed by walks, start at most 0 at the source and leave every edge
/// relaxed are the shortest distances.
proof fn lemma_cross_exact(es: Seq<(u32, u32, i64)>, n: int, s: int, dist: Seq<i64>)
    requires
        edges_within(es, n),
        0 <= s < n,
        dist.len() == n,
        dist[s] <= 0,
        forall|x: int| 0 <= x < n ==> #[trigger] dist[x] <= INF,
        estimates_backed(es, s, dist),
        forall|e: int| 0 <= e < es.len() ==> #[trigger] sat_relaxed(es, dist, e),
        cross_scc_case(es, n),
    ensures
        forall|v: int| 0 <= v < n ==> is_shortest(es, s, v, #[trigger] dist[v] as int),
{
    let w = max_abs_weight(es);
    lemma_max_abs_weight(es);
    assert(!reaches_negative_cycle(es, s)) by {
        if reaches_negative_cycle(es, s) {
            let (p, c, x) = choose|p: Seq<int>, c: Seq<int>, x: int|
                #[trigger] is_walk(es, p, s, x) && #[trigger] is_walk(es, c, x, x) && walk_weight(es, c) < 0;
            lemma_cross_no_negative_cycle(es, c, x);
        }
    }
    assert(n * w >= 0) by (nonlinear_arith)
        requires
            n >= 0,
            w >= 0,
    ;
    // Finite estimates are at least -(n - 1)·W.
    assert forall|x: int| 0 <= x < n && #[trigger] dist[x] < INF implies dist[x] >= -(n * w) by {
        assert(walk_bounded(es, s, x, dist[x] as int));
        let p = choose|p: Seq<int>| #[trigger] is_walk(es, p, s, x) && walk_weight(es, p) <= dist[x];
        let q = lemma_shortcut(es, n, s, p, x);
        lemma_walk_weight_bound(es, q, s, x, w);
        let l = q.len() as int;
        assert(l * w <= n * w) by (nonlinear_arith)
            requires
                0 <= l <= n,
                w >= 0,
        ;
    }
    assert(all_relaxed(es, dist)) by {
        assert forall|e: int| 0 <= e < es.len() && dist[(#[trigger] es[e]).0 as int] < INF implies dist[es[e].1 as int]
            <= dist[es[e].0 as int] + es[e].2 by {
            assert(sat_relaxed(es, dist, e));
            assert(es[e].0 < n);
            assert(dist[es[e].0 as int] >= -(n * w));
            assert(-w <= es[e].2 <= w);
        }
    }
    assert forall|v: int| 0 <= v < n implies is_shortest(es, s, v, #[trigger] dist[v] as int) by {
        assert forall|p: Seq<int>| #[trigger] is_walk(es, p, s, v) implies dist[v] <= walk_weight(es, p) by {
            let q = lemma_shortcut(es, n, s, p, v);
            let l = q.len() as int;
            assert(l * w <= n * w) by (nonlinear_arith)
                requires
                    0 <= l <= n,
                    w >= 0,
            ;
            lemma_relaxed_short_walk(es, dist, s, w, q, v);
        }
        if dist[v] < INF {
            assert(walk_bounded(es, s, v, dist[v] as int));
            let p = choose|p: Seq<int>| #[trigger] is_walk(es, p, s, v) && walk_weight(es, p) <= dist[v];
            assert(walk_weight(es, p) == dist[v]);
        }
    }
}

/// Lowering `dist[v]` to `nd`, the saturated weight `d + w` of a walk to `u`
/// extended by the edge `e` from `u` to `v`, keeps every estimate backed.
pub(crate) proof fn lemma_relax_backed(es: Seq<(u32, u32, i64)>, s: int, dist: Seq<i64>, u: int, d: int, e: int, nd: i64)
    requires
        estimates_backed(es, s, dist),
        0 <= e < es.len(),
        es[e].0 == u,
        0 <= es[e].1 < dist.len(),
        walk_bounded(es, s, u, d),
        nd == clamp64(d + es[e].2),
        nd < dist[es[e].1 as int],
        dist[es[e].1 as int] <= INF,
    ensures
        estimates_backed(es, s, dist.update(es[e].1 as int, nd)),
{
    let v = es[e].1 as int;
    let p = choose|p: Seq<int>| #[trigger] is_walk(es, p, s, u) && walk_weight(es, p) <= d;
    lemma_walk_push(es, p, s, u, e);
    let nd2 = dist.update(v, nd);
    assert forall|x: int| 0 <= x < nd2.len() && #[trigger] nd2[x] < INF implies walk_bounded(es, s, x, nd2[x] as int) by {
        if x == v {
            assert(is_walk(es, p.push(e), s, v));
            assert(walk_weight(es, p.push(e)) <= nd);
        } else {
            assert(nd2[x] == dist[x]);
        }
    }
}

/// Dijkstra's queue loop on one component: the smallest estimate is taken
/// from the queue, stale entries are skipped, and only edges between nodes
/// of the component `sid` are relaxed.
#[verifier::loop_isolation(false)]
fn relax_component(
    g: &Graph,
    comp: &Vec<usize>,
    sid: usize,
    nodes: &Vec<u32>,
    dist: &mut Vec<i64>,
    Ghost(s): Ghost<int>,
)
    requires
        g.wf(),
        comp@.len() == g.num_nodes(),
        old(dist)@.len() == g.num_nodes(),
        forall|i: int| 0 <= i < nodes@.len() ==> #[trigger] nodes@[i] < g.num_nodes(),
        forall|v: int| 0 <= v < g.num_nodes() && #[trigger] comp@[v] == sid ==> nodes@.contains(v as u32),
        forall|v: int| 0 <= v < g.num_nodes() ==> #[trigger] old(dist)@[v] <= INF,
        estimates_backed(g.edge_list(), s, old(dist)@),
    ensures
        final(dist)@.len() == g.num_nodes(),
        forall|v: int| 0 <= v < g.num_nodes() ==> #[trigger] final(dist)@[v] <= old(dist)@[v],
        forall|v: int| 0 <= v < g.num_nodes() && comp@[v] != sid ==> #[trigger] final(dist)@[v] == old(dist)@[v],
        estimates_backed(g.edge_list(), s, final(dist)@),
        forall|u: int|
            0 <= u < g.num_nodes() && comp@[u] == sid ==> #[trigger] relaxed_within(
                g.edge_list(),
                comp@,
                sid as int,
                final(dist)@,
                u,
            ),
{
    let ghost es = g.edge_list();
    proof {
        g.lemma_wf_edges();
    }
    let n = g.node_count();
    let ghost m = es.len() as int;
    let ghost dist0 = dist@;
    let ghost lo = n * (i64::MIN as int);
    let mut heap = MinQueue::new();
    let mut i: usize = 0;
    while i < nodes.len()
        invariant
            i <= nodes@.len(),
            dist@ == dist0,
            forall|y: (i64, u32)| #[trigger] heap.elems().contains(y) ==> y.1 < n && y.0 < INF && dist@[y.1 as int] <= y.0,
            forall|k: int|
                0 <= k < i && dist@[#[trigger] nodes@[k] as int] < INF ==> heap.elems().contains(
                    (dist@[nodes@[k] as int], nodes@[k]),
                ),
        decreases nodes@.len() - i,
    {
        let v = nodes[i];
        if dist[v as usize] < INF {
            heap.push((dist[v as usize], v));
        }
        i = i + 1;
    }
    proof {
        assert forall|u: int| 0 <= u < n && comp@[u] == sid && #[trigger] dist@[u] < INF implies heap.elems().contains(
            (dist@[u], u as u32),
        ) || relaxed_within(es, comp@, sid as int, dist@, u) by {
            assert(nodes@.contains(u as u32));
            let k = choose|k: int| 0 <= k < nodes@.len() && nodes@[k] == u as u32;
            assert(dist@[nodes@[k] as int] < INF);
        }
        lemma_sum_lower(dist@);
    }
    loop
        invariant
            n == g.num_nodes(),
            es == g.edge_list(),
            m == es.len(),
            lo == n * (i64::MIN as int),
            dist@.len() == n,
            forall|v: int| 0 <= v < n ==> #[trigger] dist@[v] <= dist0[v],
            forall|v: int| 0 <= v < n && comp@[v] != sid ==> #[trigger] dist@[v] == dist0[v],
            estimates_backed(es, s, dist@),
            forall|y: (i64, u32)| #[trigger] heap.elems().contains(y) ==> y.1 < n && y.0 < INF && dist@[y.1 as int] <= y.0,
            forall|u: int|
                0 <= u < n && comp@[u] == sid && #[trigger] dist@[u] < INF ==> heap.elems().contains(
                    (dist@[u], u as u32),
                ) || relaxed_within(es, comp@, sid as int, dist@, u),
        decreases 2 * (sum_seq(dist@) - lo) + heap.elems().len(),
    {
        let ghost measure0 = 2 * (sum_seq(dist@) - lo) + heap.elems().len();
        let ghost heap0 = heap.elems();
        proof {
            lemma_sum_lower(dist@);
        }
        let top = heap.pop();
        let (d, u) = match top {
            None => {
                break;
            },
            Some(x) => x,
        };
        proof {
            assert(heap0.contains((d, u)));
            assert(heap.elems().len() + 1 == heap0.len());
        }
        if d > dist[u as usize] {
            proof {
                assert forall|y: int| 0 <= y < n && comp@[y] == sid && #[trigger] dist@[y] < INF implies heap.elems().contains(
                    (dist@[y], y as u32),
                ) || relaxed_within(es, comp@, sid as int, dist@, y) by {
                    if heap0.contains((dist@[y], y as u32)) {
                        assert((dist@[y], y as u32) != (d, u));
                    }
                }
            }
            continue;
        }
        let ghost du = d as int;
        proof {
            assert(dist@[u as int] == d);
            assert(walk_bounded(es, s, u as int, dist@[u as int] as int));
        }
        let mut it = g.out_edges(NodeId(u));
        let ghost outs = incident(es, u as int, true);
        proof {
            lemma_incident_members(es, u as int, m, true);
            assert forall|y: int| 0 <= y < n && y != u && comp@[y] == sid && #[trigger] dist@[y] < INF implies heap.elems().contains(
                (dist@[y], y as u32),
            ) || relaxed_within(es, comp@, sid as int, dist@, y) by {
                if heap0.contains((dist@[y], y as u32)) {
                    assert((dist@[y], y as u32) != (d, u));
                }
            }
        }
        loop
            invariant
                n == g.num_nodes(),
                es == g.edge_list(),
                m == es.len(),
                lo == n * (i64::MIN as int),
                it.graph() == *g,
                outs == incident(es, u as int, true),
                outs.len() <= m,
                it.remaining().len() <= outs.len(),
                it.remaining() == outs.subrange(outs.len() - it.remaining().len(), outs.len() as int),
                forall|k: int| 0 <= k < outs.len() ==> 0 <= #[trigger] outs[k] < m && es[outs[k]].0 == u,
                dist@.len() == n,
                u < n,
                forall|v: int| 0 <= v < n ==> #[trigger] dist@[v] <= dist0[v],
                forall|v: int| 0 <= v < n && comp@[v] != sid ==> #[trigger] dist@[v] == dist0[v],
                estimates_backed(es, s, dist@),
                walk_bounded(es, s, u as int, du),
                d < INF,
                dist@[u as int] <= d,
                dist@[u as int] < d ==> heap.elems().contains((dist@[u as int], u)),
                forall|y: (i64, u32)| #[trigger] heap.elems().contains(y) ==> y.1 < n && y.0 < INF && dist@[y.1 as int] <= y.0,
                forall|y: int|
                    0 <= y < n && y != u && comp@[y] == sid && #[trigger] dist@[y] < INF ==> heap.elems().contains(
                        (dist@[y], y as u32),
                    ) || relaxed_within(es, comp@, sid as int, dist@, y),
                forall|k: int|
                    0 <= k < outs.len() - it.remaining().len() && comp@[es[#[trigger] outs[k]].1 as int] == sid
                        ==> dist@[es[outs[k]].1 as int] <= clamp64(d + es[outs[k]].2),
                2 * (sum_seq(dist@) - lo) + heap.elems().len() < measure0,
            decreases it.remaining().len(),
        {
            let ghost rem0 = it.remaining();
            let nx = it.next();
            let e = match nx {
                None => {
                    break;
                },
                Some(e) => e,
            };
            let ghost k0 = outs.len() - rem0.len();
            proof {
                assert(it.remaining() =~= outs.subrange(outs.len() - it.remaining().len(), outs.len() as int));
                assert(rem0[0] == outs[k0]);
            }
            let v = g.target(e);
            if comp[v.0 as usize] != sid {
                continue;
            }
            let nd = sat_add(d, g.weight(e));
            if nd < dist[v.0 as usize] {
                let ghost dist1 = dist@;
                let ghost heap1 = heap.elems();
                proof {
                    lemma_relax_backed(es, s, dist@, u as int, du, e.0 as int, nd);
                    lemma_sum_update(dist1, v.0 as int, nd);
                }
                dist.set(v.0 as usize, nd);
                heap.push((nd, v.0));
                proof {
                    assert forall|y: (i64, u32)| #[trigger] heap.elems().contains(y) implies y.1 < n && y.0 < INF
                        && dist@[y.1 as int] <= y.0 by {
                        if y != (nd, v.0) {
                            assert(heap1.contains(y));
                        }
                    }
                    assert forall|y: int| 0 <= y < n && y != u && comp@[y] == sid && #[trigger] dist@[y] < INF implies heap.elems().contains(
                        (dist@[y], y as u32),
                    ) || relaxed_within(es, comp@, sid as int, dist@, y) by {
                        if y != v.0 {
                            if heap1.contains((dist1[y], y as u32)) {
                            } else {
                                assert(relaxed_within(es, comp@, sid as int, dist1, y));
                                assert forall|f: int| 0 <= f < es.len() && (#[trigger] es[f]).0 == y && comp@[es[f].1 as int] == sid implies sat_relaxed(
                                    es,
                                    dist@,
                                    f,
                                ) by {
                                    assert(sat_relaxed(es, dist1, f));
                                }
                            }
                        }
                    }
                }
            }
            proof {
                assert forall|k: int|
                    0 <= k < outs.len() - it.remaining().len() && comp@[es[#[trigger] outs[k]].1 as int] == sid
                        implies dist@[es[outs[k]].1 as int] <= clamp64(d + es[outs[k]].2) by {
                    if k == k0 {
                        assert(outs[k] == e.0);
                    }
                }
            }
        }
        proof {
            assert(it.remaining().len() == 0);
            if dist@[u as int] == d {
                assert forall|f: int| 0 <= f < es.len() && (#[trigger] es[f]).0 == u && comp@[es[f].1 as int] == sid implies sat_relaxed(
                    es,
                    dist@,
                    f,
                ) by {
                    assert(outs.contains(f));
                    let k = choose|k: int| 0 <= k < outs.len() && outs[k] == f;
                }
            }
            assert forall|y: int| 0 <= y < n && comp@[y] == sid && #[trigger] dist@[y] < INF implies heap.elems().contains(
                (dist@[y], y as u32),
            ) || relaxed_within(es, comp@, sid as int, dist@, y) by {
            }
            lemma_sum_lower(dist@);
        }
    }
    proof {
        assert forall|u: int| 0 <= u < n && comp@[u] == sid implies #[trigger] relaxed_within(es, comp@, sid as int, dist@, u) by {
            if dist@[u] < INF {
                assert(heap.elems().len() == 0);
                if heap.elems().contains((dist@[u], u as u32)) {
                    let k = choose|k: int| 0 <= k < heap.elems().len() && heap.elems()[k] == (dist@[u], u as u32);
                }
            } else {
                assert forall|f: int| 0 <= f < es.len() && (#[trigger] es[f]).0 == u && comp@[es[f].1 as int] == sid implies sat_relaxed(
                    es,
                    dist@,
                    f,
                ) by {
                }
            }
        }
    }
}

/// The nodes `0..n` grouped by label: list `i` holds the nodes labelled `i`.
fn group_by_label(comp: &Vec<usize>, num_sccs: usize, n: usize) -> (groups: Vec<Vec<u32>>)
    requires
        comp@.len() == n,
        n <= u32::MAX,
        forall|x: int| 0 <= x < n ==> #[trigger] comp@[x] < num_sccs,
    ensures
        groups@.len() == num_sccs,
        forall|i: int, k: int|
            0 <= i < num_sccs && 0 <= k < groups@[i]@.len() ==> #[trigger] groups@[i]@[k] < n
                && comp@[groups@[i]@[k] as int] == i,
        forall|x: int| 0 <= x < n ==> groups@[#[trigger] comp@[x] as int]@.contains(x as u32),
{
    let mut scc_nodes: Vec<Vec<u32>> = Vec::with_capacity(num_sccs);
    let mut c: usize = 0;
    while c < num_sccs
        invariant
            c <= num_sccs,
            scc_nodes@.len() == c,
            forall|i: int| 0 <= i < c ==> (#[trigger] scc_nodes@[i])@.len() == 0,
        decreases num_sccs - c,
    {
        scc_nodes.push(Vec::new());
        c = c + 1;
    }
    let mut v: usize = 0;
    while v < n
        invariant
            v <= n,
            n <= u32::MAX,
            comp@.len() == n,
            forall|x: int| 0 <= x < n ==> #[trigger] comp@[x] < num_sccs,
            scc_nodes@.len() == num_sccs,
            forall|i: int, k: int|
                0 <= i < num_sccs && 0 <= k < scc_nodes@[i]@.len() ==> #[trigger] scc_nodes@[i]@[k] < n
                    && comp@[scc_nodes@[i]@[k] as int] == i,
            forall|x: int| 0 <= x < v ==> scc_nodes@[#[trigger] comp@[x] as int]@.contains(x as u32),
        decreases n - v,
    {
        let c = comp[v];
        let ghost before = scc_nodes@;
        scc_nodes[c].push(v as u32);
        proof {
            assert forall|i: int, k: int|
                0 <= i < num_sccs && 0 <= k < scc_nodes@[i]@.len() implies #[trigger] scc_nodes@[i]@[k] < n
                    && comp@[scc_nodes@[i]@[k] as int] == i by {
                if i != c {
                    assert(scc_nodes@[i] == before[i]);
                } else if k < before[i]@.len() {
                    assert(scc_nodes@[i]@[k] == before[i]@[k]);
                }
            }
            assert forall|x: int| 0 <= x < v + 1 implies scc_nodes@[#[trigger] comp@[x] as int]@.contains(x as u32) by {
                if x == v {
                    assert(scc_nodes@[c as int]@[before[c as int]@.len() as int] == v as u32);
                } else {
                    let cx = comp@[x] as int;
                    assert(before[cx]@.contains(x as u32));
                    let k = choose|k: int| 0 <= k < before[cx]@.len() && before[cx]@[k] == x as u32;
                    if cx == c {
                        assert(scc_nodes@[cx]@[k] == x as u32);
                    } else {
                        assert(scc_nodes@[cx] == before[cx]);
                    }
                }
            }
        }
        v = v + 1;
    }
    scc_nodes
}

/// Relax the edges that leave the component `sid` from its nodes `nodes`.
/// Their targets lie in components of smaller label, so nothing in the
/// components from `sid` on changes.
#[verifier::loop_isolation(false)]
fn propagate_component(
    g: &Graph,
    comp: &Vec<usize>,
    sid: usize,
    nodes: &Vec<u32>,
    dist: &mut Vec<i64>,
    Ghost(s): Ghost<int>,
)
    requires
        g.wf(),
        comp@.len() == g.num_nodes(),
        old(dist)@.len() == g.num_nodes(),
        0 <= s < g.num_nodes(),
        forall|k: int| 0 <= k < nodes@.len() ==> #[trigger] nodes@[k] < g.num_nodes() && comp@[nodes@[k] as int] == sid,
        forall|e: int|
            0 <= e < g.edge_list().len() ==> comp@[(#[trigger] g.edge_list()[e]).1 as int] <= comp@[g.edge_list()[e].0 as int],
        forall|x: int| 0 <= x < g.num_nodes() ==> #[trigger] old(dist)@[x] <= INF,
        estimates_backed(g.edge_list(), s, old(dist)@),
    ensures
        final(dist)@.len() == g.num_nodes(),
        forall|x: int| 0 <= x < g.num_nodes() ==> #[trigger] final(dist)@[x] <= old(dist)@[x],
        forall|x: int| 0 <= x < g.num_nodes() && comp@[x] >= sid ==> #[trigger] final(dist)@[x] == old(dist)@[x],
        estimates_backed(g.edge_list(), s, final(dist)@),
        forall|k: int, e: int|
            0 <= k < nodes@.len() && 0 <= e < g.edge_list().len() && (#[trigger] g.edge_list()[e]).0
                == #[trigger] nodes@[k] && comp@[g.edge_list()[e].1 as int] != sid ==> sat_relaxed(
                g.edge_list(),
                final(dist)@,
                e,
            ),
{
    let ghost es = g.edge_list();
    proof {
        g.lemma_wf_edges();
    }
    let n = g.node_count();
    let ghost d0 = dist@;
    let mut i: usize = 0;
    while i < nodes.len()
        invariant
            i <= nodes@.len(),
            n == g.num_nodes(),
            es == g.edge_list(),
            dist@.len() == n,
            forall|x: int| 0 <= x < n ==> #[trigger] dist@[x] <= INF,
            estimates_backed(es, s, dist@),
            forall|x: int| 0 <= x < n ==> #[trigger] dist@[x] <= d0[x],
            forall|x: int| 0 <= x < n && comp@[x] >= sid ==> #[trigger] dist@[x] == d0[x],
            forall|k: int, e: int|
                0 <= k < i && 0 <= e < es.len() && (#[trigger] es[e]).0 == #[trigger] nodes@[k] && comp@[es[e].1 as int]
                    != sid ==> sat_relaxed(es, dist@, e),
        decreases nodes@.len() - i,
    {
        let u = nodes[i];
        let du = dist[u as usize];
        let ghost d_node = dist@;
        if du < INF {
            proof {
                assert(walk_bounded(es, s, u as int, du as int));
                lemma_incident_members(es, u as int, es.len() as int, true);
            }
            let mut it = g.out_edges(NodeId(u));
            let ghost outs = incident(es, u as int, true);
            loop
                invariant
                    n == g.num_nodes(),
                    es == g.edge_list(),
                    it.graph() == *g,
                    outs == incident(es, u as int, true),
                    it.remaining().len() <= outs.len(),
                    it.remaining() == outs.subrange(outs.len() - it.remaining().len(), outs.len() as int),
                    forall|k: int| 0 <= k < outs.len() ==> 0 <= #[trigger] outs[k] < es.len() && es[outs[k]].0 == u,
                    dist@.len() == n,
                    forall|x: int| 0 <= x < n ==> #[trigger] dist@[x] <= INF,
                    estimates_backed(es, s, dist@),
                    walk_bounded(es, s, u as int, du as int),
                    du < INF,
                    du == dist@[u as int],
                    forall|x: int| 0 <= x < n ==> #[trigger] dist@[x] <= d_node[x],
                    forall|x: int| 0 <= x < n && comp@[x] >= sid ==> #[trigger] dist@[x] == d_node[x],
                    forall|k: int|
                        0 <= k < outs.len() - it.remaining().len() && comp@[es[#[trigger] outs[k]].1 as int] != sid
                            ==> dist@[es[outs[k]].1 as int] <= clamp64(du + es[outs[k]].2),
                decreases it.remaining().len(),
            {
                let ghost rem0 = it.remaining();
                let nx = it.next();
                let e = match nx {
                    None => {
                        break;
                    },
                    Some(e) => e,
                };
                let ghost k0 = outs.len() - rem0.len();
                proof {
                    assert(it.remaining() =~= outs.subrange(outs.len() - it.remaining().len(), outs.len() as int));
                    assert(rem0[0] == outs[k0]);
                }
                let v = g.target(e);
                if comp[v.0 as usize] == sid {
                    continue;
                }
                // Negative cross-SCC edges are allowed.
                let nd = sat_add(du, g.weight(e));
                if nd < dist[v.0 as usize] {
                    proof {
                        lemma_relax_backed(es, s, dist@, u as int, du as int, e.0 as int, nd);
                        assert(comp@[es[e.0 as int].1 as int] <= comp@[es[e.0 as int].0 as int]);
                    }
                    dist.set(v.0 as usize, nd);
                }
                proof {
                    assert forall|k: int|
                        0 <= k < outs.len() - it.remaining().len() && comp@[es[#[trigger] outs[k]].1 as int] != sid
                            implies dist@[es[outs[k]].1 as int] <= clamp64(du + es[outs[k]].2) by {
                        if k == k0 {
                            assert(outs[k] == e.0);
                        }
                    }
                }
            }
            proof {
                assert(it.remaining().len() == 0);
            }
        }
        proof {
            assert forall|k: int, e: int|
                0 <= k < i + 1 && 0 <= e < es.len() && (#[trigger] es[e]).0 == #[trigger] nodes@[k] && comp@[es[e].1 as int]
                    != sid implies sat_relaxed(es, dist@, e) by {
                assert(es[e].0 < n && es[e].1 < n);
                if k < i {
                    assert(sat_relaxed(es, d_node, e));
                } else if du < INF {
                    assert(incident(es, u as int, true).contains(e));
                    let k1 = choose|k1: int| 0 <= k1 < incident(es, u as int, true).len() && incident(es, u as int, true)[k1] == e;
                }
            }
        }
        i = i + 1;
    }
}

/// SSSP when every negative edge crosses SCCs (Lemma 5.4).
///
/// Runs in O(m log n) time. The SCC DAG is processed in topological order;
/// within each SCC only non-negative edges remain so Dijkstra suffices.
///
/// `source` must be a valid NodeId. Returns distances from `source`. Every
/// finite entry is at least the weight of some walk from `source`, and at the
/// end no edge can lower an entry; when negative edges only join components
/// (and `n·W` or the sum of the absolute weights stays below `INF`), the
/// entries are the shortest distances. Inside a component, estimates are lowered for as long as an
/// edge improves one: a negative cycle there keeps the queue busy until the
/// estimates saturate at `i64::MIN`.
pub fn sssp_cross_scc(g: &Graph, source: NodeId) -> (dist: Vec<i64>)
    requires
        g.wf(),
        source.0 < g.num_nodes(),
    ensures
        dist@.len() == g.num_nodes(),
        dist@[source.0 as int] <= 0,
        forall|v: int| 0 <= v < g.num_nodes() ==> #[trigger] dist@[v] <= INF,
        estimates_backed(g.edge_list(), source.0 as int, dist@),
        forall|e: int| 0 <= e < g.edge_list().len() ==> #[trigger] sat_relaxed(g.edge_list(), dist@, e),
        cross_scc_case(g.edge_list(), g.num_nodes() as int) ==> forall|v: int|
            0 <= v < g.num_nodes() ==> is_shortest(g.edge_list(), source.0 as int, v, #[trigger] dist@[v] as int),
        negatives_cross(g.edge_list()) && abs_sum(g.edge_list()) < INF ==> forall|v: int|
            0 <= v < g.num_nodes() ==> is_shortest(g.edge_list(), source.0 as int, v, #[trigger] dist@[v] as int),
{
    let ghost es = g.edge_list();
    let ghost s = source.0 as int;
    proof {
        g.lemma_wf_edges();
    }
    let n = g.node_count();
    let (comp, num_sccs) = scc(g);

    // Topological order of SCCs: Tarjan returns them in reverse topo order,
    // so SCC 0 is a "sink" and SCC (num_sccs-1) is a "source" in the DAG.
    // We process SCCs from highest id (sources) to lowest id (sinks).
    let mut dist: Vec<i64> = filled(n, INF);
    dist.set(source.0 as usize, 0);
    proof {
        assert(is_walk(es, Seq::<int>::empty(), s, s));
        assert forall|v: int| 0 <= v < dist@.len() && #[trigger] dist@[v] < INF implies walk_bounded(es, s, v, dist@[v] as int) by {
            assert(v == s);
            assert(is_walk(es, Seq::<int>::empty(), s, v));
        }
    }

    // Group nodes by SCC.
    let scc_nodes = group_by_label(&comp, num_sccs, n);

    // Process SCCs in reverse order (highest id = topological source first).
    let mut sid = num_sccs;
    while sid > 0
        invariant
            sid <= num_sccs,
            g.wf(),
            n == g.num_nodes(),
            es == g.edge_list(),
            edges_within(es, n as int),
            comp@.len() == n,
            forall|x: int| 0 <= x < n ==> #[trigger] comp@[x] < num_sccs,
            forall|e: int| 0 <= e < es.len() ==> comp@[(#[trigger] es[e]).1 as int] <= comp@[es[e].0 as int],
            dist@.len() == n,
            0 <= s < n,
            dist@[s] <= 0,
            forall|x: int| 0 <= x < n ==> #[trigger] dist@[x] <= INF,
            estimates_backed(es, s, dist@),
            scc_nodes@.len() == num_sccs,
            forall|i: int, k: int|
                0 <= i < num_sccs && 0 <= k < scc_nodes@[i]@.len() ==> #[trigger] scc_nodes@[i]@[k] < n
                    && comp@[scc_nodes@[i]@[k] as int] == i,
            forall|x: int| 0 <= x < n ==> scc_nodes@[#[trigger] comp@[x] as int]@.contains(x as u32),
            // The components from `sid` on are done: no edge out of them can
            // lower an estimate.
            forall|e: int| 0 <= e < es.len() && comp@[(#[trigger] es[e]).0 as int] >= sid ==> sat_relaxed(es, dist@, e),
        decreases sid,
    {
        sid = sid - 1;
        let nodes = &scc_nodes[sid];
        let ghost d_before = dist@;
        proof {
            assert forall|k: int| 0 <= k < nodes@.len() implies #[trigger] nodes@[k] < n && comp@[nodes@[k] as int] == sid by {
                assert(scc_nodes@[sid as int]@[k] < n);
            }
            assert forall|x: int| 0 <= x < n && #[trigger] comp@[x] == sid implies nodes@.contains(x as u32) by {
                assert(scc_nodes@[comp@[x] as int]@.contains(x as u32));
            }
        }
        relax_component(g, &comp, sid, nodes, &mut dist, Ghost(s));
        let ghost d_mid = dist@;
        // Propagate cross-SCC edges leaving this SCC.
        propagate_component(g, &comp, sid, nodes, &mut dist, Ghost(s));
        proof {
            assert(dist@[s] <= d_before[s]);
            assert forall|e: int| 0 <= e < es.len() && comp@[(#[trigger] es[e]).0 as int] >= sid implies sat_relaxed(es, dist@, e) by {
                let x = es[e].0 as int;
                let y = es[e].1 as int;
                assert(es[e].0 < n && es[e].1 < n);
                if comp@[x] > sid {
                    assert(sat_relaxed(es, d_before, e));
                } else if comp@[y] == sid {
                    assert(relaxed_within(es, comp@, sid as int, d_mid, x));
                    assert(sat_relaxed(es, d_mid, e));
                } else {
                    assert(nodes@.contains(x as u32));
                    let k = choose|k: int| 0 <= k < nodes@.len() && nodes@[k] == x as u32;
                    assert(es[e].0 == nodes@[k]);
                }
            }
        }
    }
    proof {
        assert forall|e: int| 0 <= e < es.len() implies #[trigger] sat_relaxed(es, dist@, e) by {
            assert(es[e].0 < n);
            assert(comp@[es[e].0 as int] >= 0);
        }
        if cross_scc_case(es, n as int) {
            lemma_cross_exact(es, n as int, s, dist@);
        }
        if negatives_cross(es) && abs_sum(es) < INF {
            assert(!reaches_negative_cycle(es, s)) by {
                if reaches_negative_cycle(es, s) {
                    let (p, c, x) = choose|p: Seq<int>, c: Seq<int>, x: int|
                        #[trigger] is_walk(es, p, s, x) && #[trigger] is_walk(es, c, x, x) && walk_weight(es, c) < 0;
                    lemma_cross_no_negative_cycle(es, c, x);
                }
            }
            lemma_relaxed_estimates_exact(es, dist@, n as int, s);
        }
    }
    dist
}

} // verus!
