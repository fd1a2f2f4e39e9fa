//! Causation graphs of events: edges from causation ids, roots and leaves,
//! topological order, cycles, reachability, depth and DOT export.
use vstd::prelude::*;

use crate::bytes::{append_bytes, bytes_eq};
use crate::filter::views;

verus! {

/// The contents of a list of `(from, to)` pairs of buffers.
pub open spec fn pair_views(edges: Seq<(Vec<u8>, Vec<u8>)>) -> Seq<(Seq<u8>, Seq<u8>)> {
    edges.map_values(|e: (Vec<u8>, Vec<u8>)| (e.0@, e.1@))
}

/// The sources of a list of edges.
pub open spec fn edge_sources(edges: Seq<(Seq<u8>, Seq<u8>)>) -> Seq<Seq<u8>> {
    edges.map_values(|e: (Seq<u8>, Seq<u8>)| e.0)
}

/// The targets of a list of edges.
pub open spec fn edge_targets(edges: Seq<(Seq<u8>, Seq<u8>)>) -> Seq<Seq<u8>> {
    edges.map_values(|e: (Seq<u8>, Seq<u8>)| e.1)
}

/// Step `i` of `p` follows an arc.
pub open spec fn step_ok<V>(arcs: Seq<(V, V)>, p: Seq<V>, i: int) -> bool {
    arcs.contains((p[i], p[i + 1]))
}

/// `p` is a walk (of at least one vertex) along `arcs`.
pub open spec fn is_walk<V>(arcs: Seq<(V, V)>, p: Seq<V>) -> bool {
    p.len() >= 1 && forall|i: int| 0 <= i < p.len() - 1 ==> #[trigger] step_ok(arcs, p, i)
}

/// `b` can be reached from `a` along `arcs` (in zero or more steps).
pub open spec fn reaches<V>(arcs: Seq<(V, V)>, a: V, b: V) -> bool {
    exists|p: Seq<V>| #[trigger] is_walk(arcs, p) && p[0] == a && p.last() == b
}

/// The edges that leave a known node, read as arcs from cause to effect.
pub open spec fn child_arcs(nodes: Seq<Seq<u8>>, edges: Seq<(Seq<u8>, Seq<u8>)>) -> Seq<
    (Seq<u8>, Seq<u8>),
> {
    edges.filter(|e: (Seq<u8>, Seq<u8>)| nodes.contains(e.0))
}

/// The edges that enter a known node, read as arcs from effect to cause.
pub open spec fn parent_arcs(nodes: Seq<Seq<u8>>, edges: Seq<(Seq<u8>, Seq<u8>)>) -> Seq<
    (Seq<u8>, Seq<u8>),
> {
    edges.filter(|e: (Seq<u8>, Seq<u8>)| nodes.contains(e.1)).map_values(
        |e: (Seq<u8>, Seq<u8>)| (e.1, e.0),
    )
}

/// A walk of one vertex.
pub proof fn lemma_reaches_refl<V>(arcs: Seq<(V, V)>, a: V)
    ensures
        reaches(arcs, a, a),
{
    let p = seq![a];
    assert(is_walk(arcs, p));
}

/// A walk extended by one arc.
pub proof fn lemma_reaches_step<V>(arcs: Seq<(V, V)>, a: V, u: V, y: V)
    requires
        reaches(arcs, a, u),
        arcs.contains((u, y)),
    ensures
        reaches(arcs, a, y),
{
    let p = choose|p: Seq<V>| #[trigger] is_walk(arcs, p) && p[0] == a && p.last() == u;
    let q = p.push(y);
    assert forall|i: int| 0 <= i < q.len() - 1 implies #[trigger] step_ok(arcs, q, i) by {
        if i < p.len() - 1 {
            assert(step_ok(arcs, p, i));
        }
    }
    assert(is_walk(arcs, q));
}

/// A set closed under the arcs holds every vertex reachable from its members.
pub proof fn lemma_closed_contains_reachable<V>(arcs: Seq<(V, V)>, closed: Seq<V>, p: Seq<V>)
    requires
        is_walk(arcs, p),
        closed.contains(p[0]),
        forall|x: V, y: V|
            closed.contains(x) && #[trigger] arcs.contains((x, y)) ==> closed.contains(y),
    ensures
        closed.contains(p.last()),
    decreases p.len(),
{
    if p.len() > 1 {
        let q = p.drop_last();
        assert forall|i: int| 0 <= i < q.len() - 1 implies #[trigger] step_ok(arcs, q, i) by {
            assert(step_ok(arcs, p, i));
        }
        lemma_closed_contains_reachable(arcs, closed, q);
        assert(step_ok(arcs, p, p.len() - 2));
    }
}

/// A copy of `s`.
pub fn copy_bytes(s: &[u8]) -> (r: Vec<u8>)
    ensures
        r@ == s@,
{
    let mut v: Vec<u8> = Vec::new();
    append_bytes(&mut v, s);
    assert(v@ =~= s@);
    v
}

/// Whether `x` is one of `list`.
pub fn contains_bytes(list: &[Vec<u8>], x: &[u8]) -> (r: bool)
    ensures
        r == views(list@).contains(x@),
{
    let mut i: usize = 0;
    while i < list.len()
        invariant
            i <= list@.len(),
            forall|j: int| 0 <= j < i ==> list@[j]@ != x@,
        decreases list@.len() - i,
    {
        if bytes_eq(list[i].as_slice(), x) {
            assert(views(list@)[i as int] == x@);
            return true;
        }
        i = i + 1;
    }
    assert forall|j: int| 0 <= j < views(list@).len() implies views(list@)[j] != x@ by {
        assert(list@[j]@ != x@);
    }
    false
}

/// Membership survives a push.
pub proof fn lemma_contains_push(s: Seq<Seq<u8>>, v: Seq<u8>, x: Seq<u8>)
    ensures
        s.contains(x) ==> s.push(v).contains(x),
        s.push(v).contains(v),
        s.push(v).contains(x) ==> s.contains(x) || x == v,
{
    if s.contains(x) {
        let i = choose|i: int| 0 <= i < s.len() && s[i] == x;
        assert(s.push(v)[i] == x);
    }
    assert(s.push(v)[s.len() as int] == v);
    if s.push(v).contains(x) && x != v {
        let i = choose|i: int| 0 <= i < s.push(v).len() && s.push(v)[i] == x;
        assert(s[i] == x);
    }
}

/// A list without repetitions that only holds members of `t` is no longer
/// than `t`.
pub proof fn lemma_distinct_within(s: Seq<Seq<u8>>, t: Seq<Seq<u8>>)
    requires
        s.no_duplicates(),
        forall|x: Seq<u8>| s.contains(x) ==> t.contains(x),
    ensures
        s.len() <= t.len(),
{
    s.unique_seq_to_set();
    t.lemma_cardinality_of_set();
    assert(s.to_set().subset_of(t.to_set())) by {
        assert forall|x: Seq<u8>| s.to_set().contains(x) implies t.to_set().contains(x) by {
            assert(s.contains(x));
        }
    }
    vstd::set_lib::lemma_len_subset(s.to_set(), t.to_set());
}

/// The targets of the arcs from `u`, in arc order, that are neither in
/// `seen` nor among the targets taken before them.
pub open spec fn new_children(
    arcs: Seq<(Seq<u8>, Seq<u8>)>,
    u: Seq<u8>,
    seen: Seq<Seq<u8>>,
) -> Seq<Seq<u8>>
    decreases arcs.len(),
{
    if arcs.len() == 0 {
        Seq::empty()
    } else {
        let e = new_children(arcs.drop_last(), u, seen);
        let x = arcs.last();
        if x.0 == u && !(seen + e).contains(x.1) {
            e.push(x.1)
        } else {
            e
        }
    }
}

/// A state of the breadth-first walk: every vertex queued so far (each
/// once, a vertex being marked as seen when it is queued), and the position
/// of the next one to take.
pub type BfsState = (Seq<Seq<u8>>, nat);

/// One step of the walk: take the next queued vertex and queue its new
/// children.
pub open spec fn bfs_step(arcs: Seq<(Seq<u8>, Seq<u8>)>, s: BfsState) -> BfsState {
    if s.1 >= s.0.len() {
        s
    } else {
        (s.0 + new_children(arcs, s.0[s.1 as int], s.0), s.1 + 1)
    }
}

/// `k` steps of the walk.
pub open spec fn bfs_iterate(arcs: Seq<(Seq<u8>, Seq<u8>)>, s: BfsState, k: nat) -> BfsState
    decreases k,
{
    if k == 0 {
        s
    } else {
        bfs_iterate(arcs, bfs_step(arcs, s), (k - 1) as nat)
    }
}

/// The walk has taken every queued vertex.
pub open spec fn bfs_done(s: BfsState) -> bool {
    s.1 >= s.0.len()
}

/// The walk from `start` before its first step.
pub open spec fn bfs_start(start: Seq<u8>) -> BfsState {
    (seq![start], 0nat)
}

/// What the breadth-first walk from `start` lists: every vertex queued
/// after `start`, once, in the order it was first reached.
pub open spec fn bfs_listing(arcs: Seq<(Seq<u8>, Seq<u8>)>, start: Seq<u8>) -> Seq<Seq<u8>> {
    let k = choose|k: nat| bfs_done(bfs_iterate(arcs, bfs_start(start), k));
    bfs_iterate(arcs, bfs_start(start), k).0.skip(1)
}

proof fn lemma_iterate_succ(arcs: Seq<(Seq<u8>, Seq<u8>)>, s: BfsState, k: nat)
    ensures
        bfs_iterate(arcs, s, k + 1) == bfs_step(arcs, bfs_iterate(arcs, s, k)),
    decreases k,
{
    assert(bfs_iterate(arcs, s, k + 1) == bfs_iterate(arcs, bfs_step(arcs, s), k));
    if k > 0 {
        lemma_iterate_succ(arcs, bfs_step(arcs, s), (k - 1) as nat);
        assert(bfs_iterate(arcs, s, k) == bfs_iterate(arcs, bfs_step(arcs, s), (k - 1) as nat));
    } else {
        assert(bfs_iterate(arcs, s, 0) == s);
        assert(bfs_iterate(arcs, bfs_step(arcs, s), 0) == bfs_step(arcs, s));
    }
}

proof fn lemma_done_stays(arcs: Seq<(Seq<u8>, Seq<u8>)>, s: BfsState, k: nat, j: nat)
    requires
        bfs_done(bfs_iterate(arcs, s, k)),
    ensures
        bfs_iterate(arcs, s, k + j) == bfs_iterate(arcs, s, k),
    decreases j,
{
    if j > 0 {
        lemma_done_stays(arcs, s, k, (j - 1) as nat);
        lemma_iterate_succ(arcs, s, (k + j - 1) as nat);
    }
}

/// Once the walk is done after `k` steps, it lists what its queue holds then.
proof fn lemma_listing_at(arcs: Seq<(Seq<u8>, Seq<u8>)>, start: Seq<u8>, k: nat)
    requires
        bfs_done(bfs_iterate(arcs, bfs_start(start), k)),
    ensures
        bfs_listing(arcs, start) == bfs_iterate(arcs, bfs_start(start), k).0.skip(1),
{
    let s = bfs_start(start);
    let k2 = choose|k: nat| bfs_done(bfs_iterate(arcs, s, k));
    if k2 <= k {
        lemma_done_stays(arcs, s, k2, (k - k2) as nat);
    } else {
        lemma_done_stays(arcs, s, k, (k2 - k) as nat);
    }
}

proof fn lemma_new_children_take(
    arcs: Seq<(Seq<u8>, Seq<u8>)>,
    u: Seq<u8>,
    seen: Seq<Seq<u8>>,
    k: int,
)
    requires
        0 <= k < arcs.len(),
    ensures
        ({
            let e = new_children(arcs.take(k), u, seen);
            new_children(arcs.take(k + 1), u, seen) == if arcs[k].0 == u && !(seen + e).contains(
                arcs[k].1,
            ) {
                e.push(arcs[k].1)
            } else {
                e
            }
        }),
{
    assert(arcs.take(k + 1).drop_last() =~= arcs.take(k));
    assert(arcs.take(k + 1).last() == arcs[k]);
}

/// Collects, in breadth-first order from `start`, every vertex reached,
/// once: a vertex is marked as seen when it is queued.
fn bfs_collect(arcs: &Vec<(Vec<u8>, Vec<u8>)>, start: &[u8]) -> (out: Vec<Vec<u8>>)
    ensures
        forall|y: Seq<u8>|
            views(out@).contains(y) <==> (y != start@ && reaches(pair_views(arcs@), start@, y)),
        views(out@) == bfs_listing(pair_views(arcs@), start@),
        views(out@).no_duplicates(),
{
    let ghost a = pair_views(arcs@);
    let ghost universe = seq![start@] + edge_targets(a);
    let mut queue: Vec<Vec<u8>> = Vec::new();
    queue.push(copy_bytes(start));
    let mut head: usize = 0;
    let ghost mut steps: nat = 0;
    proof {
        assert(views(queue@) =~= seq![start@]);
        lemma_reaches_refl(a, start@);
        assert(universe[0] == start@);
    }
    while head < queue.len()
        invariant
            a == pair_views(arcs@),
            universe == seq![start@] + edge_targets(a),
            head <= queue@.len(),
            queue@.len() >= 1,
            views(queue@)[0] == start@,
            bfs_iterate(a, bfs_start(start@), steps) == (views(queue@), head as nat),
            views(queue@).no_duplicates(),
            forall|x: Seq<u8>|
                #[trigger] views(queue@).contains(x) ==> universe.contains(x) && reaches(
                    a,
                    start@,
                    x,
                ),
            forall|j: int, y: Seq<u8>|
                0 <= j < head && #[trigger] a.contains((views(queue@)[j], y)) ==> views(
                    queue@,
                ).contains(y),
        decreases universe.len() - head,
    {
        let ghost q0 = views(queue@);
        proof {
            lemma_distinct_within(q0, universe);
            assert(q0.contains(q0[head as int]));
        }
        let u = copy_bytes(queue[head].as_slice());
        let mut k: usize = 0;
        proof {
            assert(a.take(0) =~= Seq::<(Seq<u8>, Seq<u8>)>::empty());
            assert(q0 + new_children(a.take(0), u@, q0) =~= q0);
        }
        while k < arcs.len()
            invariant
                a == pair_views(arcs@),
                universe == seq![start@] + edge_targets(a),
                k <= a.len(),
                head < q0.len(),
                u@ == q0[head as int],
                q0.len() >= 1,
                q0[0] == start@,
                views(queue@) == q0 + new_children(a.take(k as int), u@, q0),
                views(queue@).no_duplicates(),
                forall|x: Seq<u8>|
                    #[trigger] views(queue@).contains(x) ==> universe.contains(x) && reaches(
                        a,
                        start@,
                        x,
                    ),
                forall|j: int, y: Seq<u8>|
                    0 <= j < head && #[trigger] a.contains((q0[j], y)) ==> views(queue@).contains(y),
                forall|m: int|
                    0 <= m < k && (#[trigger] a[m]).0 == u@ ==> views(queue@).contains(a[m].1),
            decreases a.len() - k,
        {
            let ghost qb = views(queue@);
            proof {
                lemma_new_children_take(a, u@, q0, k as int);
                assert(a[k as int] == (arcs@[k as int].0@, arcs@[k as int].1@));
                assert(qb.contains(u@)) by {
                    assert(qb[head as int] == q0[head as int]);
                }
            }
            if bytes_eq(arcs[k].0.as_slice(), u.as_slice()) && !contains_bytes(
                queue.as_slice(),
                arcs[k].1.as_slice(),
            ) {
                let y = arcs[k].1.as_slice();
                proof {
                    assert(views(queue@).contains(u@));
                    assert(reaches(a, start@, u@));
                    assert(a.contains((u@, y@)));
                    lemma_reaches_step(a, start@, u@, y@);
                    assert(universe[k + 1] == y@);
                }
                queue.push(copy_bytes(y));
                proof {
                    assert(views(queue@) =~= qb.push(y@));
                    assert forall|x: Seq<u8>| qb.contains(x) implies views(queue@).contains(x) by {
                        lemma_contains_push(qb, y@, x);
                    }
                    lemma_contains_push(qb, y@, y@);
                    assert forall|x: Seq<u8>| #[trigger] views(queue@).contains(x) implies universe.contains(x)
                        && reaches(a, start@, x) by {
                        lemma_contains_push(qb, y@, x);
                    }
                    assert forall|p: int, q: int|
                        0 <= p < views(queue@).len() && 0 <= q < views(queue@).len() && p != q
                        implies views(queue@)[p] != views(queue@)[q] by {
                        if p == qb.len() as int {
                            assert(qb.contains(views(queue@)[q]));
                        } else if q == qb.len() as int {
                            assert(qb.contains(views(queue@)[p]));
                        }
                    }
                }
            } else {
                proof {
                    if a[k as int].0 == u@ {
                        assert(qb.contains(a[k as int].1));
                    }
                }
            }
            k = k + 1;
        }
        proof {
            assert(a.take(a.len() as int) =~= a);
            lemma_iterate_succ(a, bfs_start(start@), steps);
            assert(bfs_step(a, (q0, head as nat)) == (views(queue@), (head + 1) as nat));
            steps = steps + 1;
            assert forall|j: int, y: Seq<u8>|
                0 <= j < head + 1 && #[trigger] a.contains((views(queue@)[j], y)) implies views(
                queue@,
            ).contains(y) by {
                assert(views(queue@)[j] == q0[j]);
                if j == head {
                    let m = choose|m: int| 0 <= m < a.len() && a[m] == (q0[j], y);
                    assert(a[m].0 == u@);
                }
            }
        }
        head = head + 1;
    }
    let ghost qf = views(queue@);
    proof {
        lemma_listing_at(a, start@, steps);
        assert(forall|x: Seq<u8>| qf.contains(x) ==> reaches(a, start@, x));
        assert forall|y: Seq<u8>| qf.skip(1).contains(y) <==> (y != start@ && reaches(a, start@, y)) by {
            if qf.skip(1).contains(y) {
                let m = choose|m: int| 0 <= m < qf.skip(1).len() && qf.skip(1)[m] == y;
                assert(qf[m + 1] == y);
                assert(qf.contains(y));
                assert(qf[0] != qf[m + 1]);
            }
            if y != start@ && reaches(a, start@, y) {
                let p = choose|p: Seq<Seq<u8>>| #[trigger] is_walk(a, p) && p[0] == start@
                    && p.last() == y;
                assert forall|x: Seq<u8>, z: Seq<u8>|
                    qf.contains(x) && #[trigger] a.contains((x, z)) implies qf.contains(z) by {
                    let j = choose|j: int| 0 <= j < qf.len() && qf[j] == x;
                    assert(a.contains((qf[j], z)));
                }
                assert(qf.contains(qf[0]));
                lemma_closed_contains_reachable(a, qf, p);
                let m = choose|m: int| 0 <= m < qf.len() && qf[m] == y;
                assert(m != 0);
                assert(qf.skip(1)[m - 1] == y);
            }
        }
        assert(qf.skip(1).no_duplicates()) by {
            assert forall|p: int, q: int|
                0 <= p < qf.skip(1).len() && 0 <= q < qf.skip(1).len() && p != q
                implies qf.skip(1)[p] != qf.skip(1)[q] by {
                assert(qf.skip(1)[p] == qf[p + 1] && qf.skip(1)[q] == qf[q + 1]);
            }
        }
    }
    let mut out: Vec<Vec<u8>> = Vec::new();
    let mut i: usize = 1;
    while i < queue.len()
        invariant
            1 <= i <= queue@.len(),
            qf == views(queue@),
            views(out@) == qf.subrange(1, i as int),
        decreases queue@.len() - i,
    {
        let ghost ob = views(out@);
        out.push(copy_bytes(queue[i].as_slice()));
        assert(views(out@) =~= ob.push(qf[i as int]));
        assert(qf.subrange(1, i + 1) =~= qf.subrange(1, i as int).push(qf[i as int]));
        i = i + 1;
    }
    assert(views(out@) =~= qf.skip(1));
    out
}

proof fn lemma_pair_views_take_push(edges: Seq<(Vec<u8>, Vec<u8>)>, i: int)
    requires
        0 <= i < edges.len(),
    ensures
        pair_views(edges.take(i + 1)).drop_last() == pair_views(edges.take(i)),
        pair_views(edges.take(i + 1)).last() == (edges[i].0@, edges[i].1@),
        pair_views(edges.take(i + 1)).len() == i + 1,
{
    assert(pair_views(edges.take(i + 1)).drop_last() =~= pair_views(edges.take(i)));
}

/// A copy of an edge.
fn copy_pair(a: &[u8], b: &[u8]) -> (r: (Vec<u8>, Vec<u8>))
    ensures
        r.0@ == a@,
        r.1@ == b@,
{
    (copy_bytes(a), copy_bytes(b))
}

/// The edges whose source is a known node, in order.
fn build_child_arcs(nodes: &[Vec<u8>], edges: &[(Vec<u8>, Vec<u8>)]) -> (r: Vec<(Vec<u8>, Vec<u8>)>)
    ensures
        pair_views(r@) == child_arcs(views(nodes@), pair_views(edges@)),
{
    let ghost ns = views(nodes@);
    let mut out: Vec<(Vec<u8>, Vec<u8>)> = Vec::new();
    let mut i: usize = 0;
    assert(pair_views(edges@.take(0)) =~= Seq::<(Seq<u8>, Seq<u8>)>::empty());
    assert(pair_views(out@) =~= Seq::<(Seq<u8>, Seq<u8>)>::empty());
    proof {
        reveal_with_fuel(Seq::<_>::filter, 1);
    }
    while i < edges.len()
        invariant
            i <= edges@.len(),
            ns == views(nodes@),
            pair_views(out@) == child_arcs(ns, pair_views(edges@.take(i as int))),
        decreases edges@.len() - i,
    {
        proof {
            lemma_pair_views_take_push(edges@, i as int);
            reveal_with_fuel(Seq::<_>::filter, 1);
        }
        if contains_bytes(nodes, edges[i].0.as_slice()) {
            let e = copy_pair(edges[i].0.as_slice(), edges[i].1.as_slice());
            let ghost before = out@;
            out.push(e);
            assert(pair_views(out@) =~= pair_views(before).push((e.0@, e.1@)));
        }
        i = i + 1;
    }
    assert(edges@.take(edges@.len() as int) =~= edges@);
    out
}

/// The edges whose target is a known node, reversed, in order.
fn build_parent_arcs(nodes: &[Vec<u8>], edges: &[(Vec<u8>, Vec<u8>)]) -> (r: Vec<(Vec<u8>, Vec<u8>)>)
    ensures
        pair_views(r@) == parent_arcs(views(nodes@), pair_views(edges@)),
{
    let ghost ns = views(nodes@);
    let mut out: Vec<(Vec<u8>, Vec<u8>)> = Vec::new();
    let mut i: usize = 0;
    assert(pair_views(edges@.take(0)) =~= Seq::<(Seq<u8>, Seq<u8>)>::empty());
    assert(pair_views(out@) =~= Seq::<(Seq<u8>, Seq<u8>)>::empty());
    proof {
        reveal_with_fuel(Seq::<_>::filter, 1);
        assert(parent_arcs(ns, pair_views(edges@.take(0))) =~= Seq::<(Seq<u8>, Seq<u8>)>::empty());
    }
    while i < edges.len()
        invariant
            i <= edges@.len(),
            ns == views(nodes@),
            pair_views(out@) == parent_arcs(ns, pair_views(edges@.take(i as int))),
        decreases edges@.len() - i,
    {
        let ghost pre = pair_views(edges@.take(i as int));
        let ghost post = pair_views(edges@.take(i + 1));
        proof {
            lemma_pair_views_take_push(edges@, i as int);
            reveal_with_fuel(Seq::<_>::filter, 1);
        }
        let ghost f = |e: (Seq<u8>, Seq<u8>)| ns.contains(e.1);
        let ghost g = |e: (Seq<u8>, Seq<u8>)| (e.1, e.0);
        if contains_bytes(nodes, edges[i].1.as_slice()) {
            let e = copy_pair(edges[i].1.as_slice(), edges[i].0.as_slice());
            let ghost before = out@;
            out.push(e);
            proof {
                assert(post.filter(f) == pre.filter(f).push(post.last()));
                assert(post.filter(f).map_values(g) =~= pre.filter(f).map_values(g).push(
                    g(post.last()),
                ));
                assert(pair_views(out@) =~= pair_views(before).push((e.0@, e.1@)));
            }
        } else {
            assert(post.filter(f) == pre.filter(f));
        }
        i = i + 1;
    }
    assert(edges@.take(edges@.len() as int) =~= edges@);
    out
}

/// Every event reachable from `source` along edges leaving known nodes,
/// other than `source` itself, each once, in breadth-first order of first
/// sighting.
pub fn get_descendants(nodes: &[Vec<u8>], edges: &[(Vec<u8>, Vec<u8>)], source: &[u8]) -> (r: Vec<
    Vec<u8>,
>)
    ensures
        forall|y: Seq<u8>|
            views(r@).contains(y) <==> (y != source@ && reaches(
                child_arcs(views(nodes@), pair_views(edges@)),
                source@,
                y,
            )),
        views(r@) == bfs_listing(child_arcs(views(nodes@), pair_views(edges@)), source@),
        views(r@).no_duplicates(),
{
    let arcs = build_child_arcs(nodes, edges);
    bfs_collect(&arcs, source)
}

/// Every event that can reach `target` along edges entering known nodes,
/// other than `target` itself, each once, in breadth-first order (from
/// `target`) of first sighting.
pub fn get_ancestors(nodes: &[Vec<u8>], edges: &[(Vec<u8>, Vec<u8>)], target: &[u8]) -> (r: Vec<
    Vec<u8>,
>)
    ensures
        forall|y: Seq<u8>|
            views(r@).contains(y) <==> (y != target@ && reaches(
                parent_arcs(views(nodes@), pair_views(edges@)),
                target@,
                y,
            )),
        views(r@) == bfs_listing(parent_arcs(views(nodes@), pair_views(edges@)), target@),
        views(r@).no_duplicates(),
{
    let arcs = build_parent_arcs(nodes, edges);
    bfs_collect(&arcs, target)
}

/// The nodes that no edge points to, in order.
pub open spec fn roots_of(nodes: Seq<Seq<u8>>, edges: Seq<(Seq<u8>, Seq<u8>)>) -> Seq<Seq<u8>> {
    nodes.filter(|n: Seq<u8>| !edge_targets(edges).contains(n))
}

/// The nodes that no edge leaves, in order.
pub open spec fn leaves_of(nodes: Seq<Seq<u8>>, edges: Seq<(Seq<u8>, Seq<u8>)>) -> Seq<Seq<u8>> {
    nodes.filter(|n: Seq<u8>| !edge_sources(edges).contains(n))
}

/// A walk read backwards is a walk along the reversed arcs.
proof fn lemma_reverse_walk<V>(arcs: Seq<(V, V)>, back: Seq<(V, V)>, p: Seq<V>)
    requires
        is_walk(arcs, p),
        forall|a: V, b: V| #[trigger] arcs.contains((a, b)) ==> back.contains((b, a)),
    ensures
        is_walk(back, Seq::new(p.len(), |i: int| p[p.len() - 1 - i])),
        Seq::new(p.len(), |i: int| p[p.len() - 1 - i])[0] == p.last(),
        Seq::new(p.len(), |i: int| p[p.len() - 1 - i]).last() == p[0],
{
    let q = Seq::new(p.len(), |i: int| p[p.len() - 1 - i]);
    assert forall|i: int| 0 <= i < q.len() - 1 implies #[trigger] step_ok(back, q, i) by {
        let j = p.len() - 2 - i;
        assert(step_ok(arcs, p, j));
        assert(arcs.contains((p[j], p[j + 1])));
        assert(q[i] == p[j + 1] && q[i + 1] == p[j]);
    }
}

/// The arcs of a graph whose edges all join known nodes: children and
/// parents are the same edges, read in opposite directions.
proof fn lemma_arcs_mirror(nodes: Seq<Seq<u8>>, edges: Seq<(Seq<u8>, Seq<u8>)>)
    requires
        forall|k: int|
            0 <= k < edges.len() ==> nodes.contains((#[trigger] edges[k]).0) && nodes.contains(
                edges[k].1,
            ),
    ensures
        forall|a: Seq<u8>, b: Seq<u8>|
            #[trigger] child_arcs(nodes, edges).contains((a, b)) ==> parent_arcs(
                nodes,
                edges,
            ).contains((b, a)),
        forall|a: Seq<u8>, b: Seq<u8>|
            #[trigger] parent_arcs(nodes, edges).contains((a, b)) ==> child_arcs(
                nodes,
                edges,
            ).contains((b, a)),
{
    let fc = |e: (Seq<u8>, Seq<u8>)| nodes.contains(e.0);
    let fp = |e: (Seq<u8>, Seq<u8>)| nodes.contains(e.1);
    let sw = |e: (Seq<u8>, Seq<u8>)| (e.1, e.0);
    let kept = edges.filter(fp);
    assert forall|a: Seq<u8>, b: Seq<u8>|
        #[trigger] child_arcs(nodes, edges).contains((a, b)) implies parent_arcs(
            nodes,
            edges,
        ).contains((b, a)) by {
        edges.lemma_filter_contains_rev(fc, (a, b));
        let k = choose|k: int| 0 <= k < edges.len() && edges[k] == (a, b);
        assert(fp(edges[k]));
        edges.lemma_filter_contains(fp, k);
        let m = choose|m: int| 0 <= m < kept.len() && kept[m] == (a, b);
        assert(kept.map_values(sw)[m] == (b, a));
    }
    assert forall|a: Seq<u8>, b: Seq<u8>|
        #[trigger] parent_arcs(nodes, edges).contains((a, b)) implies child_arcs(
            nodes,
            edges,
        ).contains((b, a)) by {
        let m = choose|m: int| 0 <= m < kept.len() && kept.map_values(sw)[m] == (a, b);
        assert(kept[m] == (b, a));
        assert(kept.contains((b, a)));
        edges.lemma_filter_contains_rev(fp, (b, a));
        let k = choose|k: int| 0 <= k < edges.len() && edges[k] == (b, a);
        assert(fc(edges[k]));
        edges.lemma_filter_contains(fc, k);
    }
}

/// When every edge joins known nodes, `y` is a descendant of `x` exactly
/// when `x` is an ancestor of `y`.
pub proof fn law_ancestors_mirror_descendants(
    nodes: Seq<Seq<u8>>,
    edges: Seq<(Seq<u8>, Seq<u8>)>,
    x: Seq<u8>,
    y: Seq<u8>,
)
    requires
        forall|k: int|
            0 <= k < edges.len() ==> nodes.contains((#[trigger] edges[k]).0) && nodes.contains(
                edges[k].1,
            ),
    ensures
        reaches(child_arcs(nodes, edges), x, y) <==> reaches(parent_arcs(nodes, edges), y, x),
{
    let c = child_arcs(nodes, edges);
    let pa = parent_arcs(nodes, edges);
    lemma_arcs_mirror(nodes, edges);
    if reaches(c, x, y) {
        let p = choose|p: Seq<Seq<u8>>| #[trigger] is_walk(c, p) && p[0] == x && p.last() == y;
        lemma_reverse_walk(c, pa, p);
        let q = Seq::new(p.len(), |i: int| p[p.len() - 1 - i]);
        assert(is_walk(pa, q) && q[0] == y && q.last() == x);
    }
    if reaches(pa, y, x) {
        let p = choose|p: Seq<Seq<u8>>| #[trigger] is_walk(pa, p) && p[0] == y && p.last() == x;
        lemma_reverse_walk(pa, c, p);
        let q = Seq::new(p.len(), |i: int| p[p.len() - 1 - i]);
        assert(is_walk(c, q) && q[0] == x && q.last() == y);
    }
}

/// Copies of the sources (`which == false`) or targets (`which == true`)
/// of the edges.
fn edge_ends(edges: &[(Vec<u8>, Vec<u8>)], which: bool) -> (r: Vec<Vec<u8>>)
    ensures
        views(r@) == if which {
            edge_targets(pair_views(edges@))
        } else {
            edge_sources(pair_views(edges@))
        },
{
    let mut out: Vec<Vec<u8>> = Vec::new();
    let mut i: usize = 0;
    while i < edges.len()
        invariant
            i <= edges@.len(),
            views(out@).len() == i,
            forall|j: int|
                0 <= j < i ==> #[trigger] views(out@)[j] == if which {
                    edges@[j].1@
                } else {
                    edges@[j].0@
                },
        decreases edges@.len() - i,
    {
        let c = if which {
            copy_bytes(edges[i].1.as_slice())
        } else {
            copy_bytes(edges[i].0.as_slice())
        };
        let ghost before = out@;
        out.push(c);
        assert(views(out@) =~= views(before).push(c@));
        i = i + 1;
    }
    assert(views(out@) =~= if which {
        edge_targets(pair_views(edges@))
    } else {
        edge_sources(pair_views(edges@))
    });
    out
}

/// The nodes not in `excluded`, in order.
fn nodes_not_in(nodes: &[Vec<u8>], excluded: &[Vec<u8>]) -> (r: Vec<Vec<u8>>)
    ensures
        views(r@) == views(nodes@).filter(|n: Seq<u8>| !views(excluded@).contains(n)),
{
    let ghost ex = views(excluded@);
    let ghost f = |n: Seq<u8>| !ex.contains(n);
    let mut out: Vec<Vec<u8>> = Vec::new();
    let mut i: usize = 0;
    assert(views(nodes@.take(0)) =~= Seq::<Seq<u8>>::empty());
    assert(views(out@) =~= Seq::<Seq<u8>>::empty());
    proof {
        reveal_with_fuel(Seq::<_>::filter, 1);
    }
    while i < nodes.len()
        invariant
            i <= nodes@.len(),
            ex == views(excluded@),
            f == (|n: Seq<u8>| !ex.contains(n)),
            views(out@) == views(nodes@.take(i as int)).filter(f),
        decreases nodes@.len() - i,
    {
        proof {
            assert(views(nodes@.take(i + 1)).drop_last() =~= views(nodes@.take(i as int)));
            assert(views(nodes@.take(i + 1)).last() == nodes@[i as int]@);
            reveal_with_fuel(Seq::<_>::filter, 1);
        }
        if !contains_bytes(excluded, nodes[i].as_slice()) {
            let c = copy_bytes(nodes[i].as_slice());
            let ghost before = out@;
            out.push(c);
            assert(views(out@) =~= views(before).push(c@));
        }
        i = i + 1;
    }
    assert(nodes@.take(nodes@.len() as int) =~= nodes@);
    out
}

/// Root events: the nodes that no edge points to, in input order.
pub fn find_roots(nodes: &[Vec<u8>], edges: &[(Vec<u8>, Vec<u8>)]) -> (r: Vec<Vec<u8>>)
    ensures
        views(r@) == roots_of(views(nodes@), pair_views(edges@)),
{
    let targets = edge_ends(edges, true);
    let r = nodes_not_in(nodes, targets.as_slice());
    assert(views(r@) =~= roots_of(views(nodes@), pair_views(edges@)));
    r
}

/// Leaf events: the nodes that no edge leaves, in input order.
pub fn find_leaves(nodes: &[Vec<u8>], edges: &[(Vec<u8>, Vec<u8>)]) -> (r: Vec<Vec<u8>>)
    ensures
        views(r@) == leaves_of(views(nodes@), pair_views(edges@)),
{
    let sources = edge_ends(edges, false);
    let r = nodes_not_in(nodes, sources.as_slice());
    assert(views(r@) =~= leaves_of(views(nodes@), pair_views(edges@)));
    r
}

/// The contents of a list of events `(event_id, causation_id)`.
pub open spec fn event_views(events: Seq<(Vec<u8>, Option<Vec<u8>>)>) -> Seq<
    (Seq<u8>, Option<Seq<u8>>),
> {
    events.map_values(
        |e: (Vec<u8>, Option<Vec<u8>>)|
            (
                e.0@,
                match e.1 {
                    Some(c) => Some(c@),
                    None => None,
                },
            ),
    )
}

/// The edge `cause -> effect` of each event whose causation id is the id of
/// some event in the list, in event order.
pub open spec fn causation_edges(events: Seq<(Seq<u8>, Option<Seq<u8>>)>) -> Seq<
    (Seq<u8>, Seq<u8>),
> {
    let ids = events.map_values(|e: (Seq<u8>, Option<Seq<u8>>)| e.0);
    events.filter(
        |e: (Seq<u8>, Option<Seq<u8>>)| e.1 is Some && ids.contains(e.1->0),
    ).map_values(|e: (Seq<u8>, Option<Seq<u8>>)| (e.1->0, e.0))
}

/// Builds the causation edges `(cause_id, effect_id)` of a list of events
/// `(event_id, causation_id)`; a causation id that names no listed event
/// gives no edge.
pub fn build_edges(events: &[(Vec<u8>, Option<Vec<u8>>)]) -> (r: Vec<(Vec<u8>, Vec<u8>)>)
    ensures
        pair_views(r@) == causation_edges(event_views(events@)),
{
    let ghost ev = event_views(events@);
    let ghost ids_spec = ev.map_values(|e: (Seq<u8>, Option<Seq<u8>>)| e.0);
    let mut ids: Vec<Vec<u8>> = Vec::new();
    let mut i: usize = 0;
    while i < events.len()
        invariant
            i <= events@.len(),
            ev == event_views(events@),
            views(ids@).len() == i,
            forall|j: int| 0 <= j < i ==> #[trigger] views(ids@)[j] == events@[j].0@,
        decreases events@.len() - i,
    {
        let c = copy_bytes(events[i].0.as_slice());
        let ghost before = ids@;
        ids.push(c);
        assert(views(ids@) =~= views(before).push(c@));
        i = i + 1;
    }
    assert(views(ids@) =~= ids_spec);
    let ghost f = |e: (Seq<u8>, Option<Seq<u8>>)| e.1 is Some && ids_spec.contains(e.1->0);
    let ghost g = |e: (Seq<u8>, Option<Seq<u8>>)| (e.1->0, e.0);
    let mut out: Vec<(Vec<u8>, Vec<u8>)> = Vec::new();
    let mut k: usize = 0;
    assert(ev.take(0).filter(f).map_values(g) =~= Seq::<(Seq<u8>, Seq<u8>)>::empty()) by {
        reveal_with_fuel(Seq::<_>::filter, 1);
    }
    assert(pair_views(out@) =~= Seq::<(Seq<u8>, Seq<u8>)>::empty());
    while k < events.len()
        invariant
            k <= events@.len(),
            ev == event_views(events@),
            views(ids@) == ids_spec,
            f == (|e: (Seq<u8>, Option<Seq<u8>>)| e.1 is Some && ids_spec.contains(e.1->0)),
            g == (|e: (Seq<u8>, Option<Seq<u8>>)| (e.1->0, e.0)),
            pair_views(out@) == ev.take(k as int).filter(f).map_values(g),
        decreases events@.len() - k,
    {
        let ghost pre = ev.take(k as int);
        let ghost post = ev.take(k + 1);
        proof {
            assert(post.drop_last() =~= pre);
            reveal_with_fuel(Seq::<_>::filter, 1);
        }
        assert(post.last() == ev[k as int]);
        match &events[k].1 {
            Some(cause) => {
                if contains_bytes(ids.as_slice(), cause.as_slice()) {
                    let e = copy_pair(cause.as_slice(), events[k].0.as_slice());
                    let ghost before = out@;
                    out.push(e);
                    proof {
                        assert(f(post.last()));
                        assert(post.filter(f) == pre.filter(f).push(post.last()));
                        assert(post.filter(f).map_values(g) =~= pre.filter(f).map_values(g).push(
                            g(post.last()),
                        ));
                        assert(pair_views(out@) =~= pair_views(before).push((e.0@, e.1@)));
                    }
                } else {
                    assert(!f(post.last()));
                    assert(post.filter(f) == pre.filter(f));
                }
            },
            None => {
                assert(!f(post.last()));
                assert(post.filter(f) == pre.filter(f));
            },
        }
        k = k + 1;
    }
    assert(ev.take(events@.len() as int) =~= ev);
    out
}

/// The order that `petgraph::algo::toposort` gives for the graph with
/// vertices `0..n` and the arcs in this order (`None` for a cycle).
pub uninterp spec fn toposort_of(n: nat, arcs: Seq<(usize, usize)>) -> Option<Seq<usize>>;

/// `a.0` comes before `a.1` in `o`.
pub open spec fn goes_forward(o: Seq<usize>, a: (usize, usize)) -> bool {
    exists|i: int, j: int| 0 <= i < j < o.len() && o[i] == a.0 && o[j] == a.1
}

/// `o` lists each vertex `0..n` once, and every arc goes forward in it.
pub open spec fn is_topological_order(n: nat, arcs: Seq<(usize, usize)>, o: Seq<usize>) -> bool {
    &&& o.len() == n
    &&& o.no_duplicates()
    &&& forall|i: int| 0 <= i < o.len() ==> (#[trigger] o[i] as nat) < n
    &&& forall|k: int| 0 <= k < arcs.len() ==> goes_forward(o, #[trigger] arcs[k])
}

/// Some walk of at least one arc returns to its start (a self loop
/// included).
pub open spec fn has_closed_walk(arcs: Seq<(usize, usize)>) -> bool {
    exists|p: Seq<usize>| #[trigger] is_walk(arcs, p) && p.len() >= 2 && p[0] == p.last()
}

/// Along a walk, a topological order places the start before the end.
proof fn lemma_walk_goes_forward(n: nat, arcs: Seq<(usize, usize)>, o: Seq<usize>, p: Seq<usize>)
    requires
        is_topological_order(n, arcs, o),
        is_walk(arcs, p),
        p.len() >= 2,
    ensures
        goes_forward(o, (p[0], p.last())),
    decreases p.len(),
{
    let m = p.len() - 2;
    assert(step_ok(arcs, p, m));
    let k = choose|k: int| 0 <= k < arcs.len() && arcs[k] == (p[m], p[m + 1]);
    assert(goes_forward(o, arcs[k]));
    let (i2, j2) = choose|i: int, j: int|
        0 <= i < j < o.len() && o[i] == arcs[k].0 && o[j] == arcs[k].1;
    if p.len() == 2 {
        assert(o[i2] == p[0] && o[j2] == p.last());
    } else {
        let q = p.drop_last();
        assert forall|t: int| 0 <= t < q.len() - 1 implies #[trigger] step_ok(arcs, q, t) by {
            assert(step_ok(arcs, p, t));
        }
        lemma_walk_goes_forward(n, arcs, o, q);
        let (i, j) = choose|i: int, j: int|
            0 <= i < j < o.len() && o[i] == q[0] && o[j] == q.last();
        assert(o[j] == o[i2]);
        assert(j == i2);
        assert(o[i] == p[0] && o[j2] == p.last());
        assert(0 <= i < j2 < o.len());
    }
}

/// A graph with a closed walk has no topological order.
proof fn lemma_closed_walk_blocks_order(n: nat, arcs: Seq<(usize, usize)>, o: Seq<usize>)
    requires
        has_closed_walk(arcs),
    ensures
        !is_topological_order(n, arcs, o),
{
    if is_topological_order(n, arcs, o) {
        let p = choose|p: Seq<usize>| #[trigger] is_walk(arcs, p) && p.len() >= 2 && p[0] == p.last();
        lemma_walk_goes_forward(n, arcs, o, p);
        let (i, j) = choose|i: int, j: int|
            0 <= i < j < o.len() && o[i] == p[0] && o[j] == p.last();
        assert(o[i] == o[j]);
    }
}

/// Some vertex of `rs` has an arc to `x`.
spec fn has_pred_in(arcs: Seq<(usize, usize)>, rs: Seq<usize>, x: usize) -> bool {
    exists|u: usize| rs.contains(u) && #[trigger] arcs.contains((u, x))
}

/// Element `m + 1` of `c` has an arc to element `m`.
spec fn back_step(arcs: Seq<(usize, usize)>, c: Seq<usize>, m: int) -> bool {
    arcs.contains((c[m + 1], c[m]))
}

/// Predecessors chosen one after another, starting from `v`.
spec fn back_chain(arcs: Seq<(usize, usize)>, rs: Seq<usize>, v: usize, k: nat) -> Seq<usize>
    decreases k,
{
    if k == 0 {
        seq![v]
    } else {
        let c = back_chain(arcs, rs, v, (k - 1) as nat);
        c.push(choose|u: usize| rs.contains(u) && arcs.contains((u, c.last())))
    }
}

proof fn lemma_back_chain(arcs: Seq<(usize, usize)>, rs: Seq<usize>, v: usize, k: nat)
    requires
        rs.contains(v),
        forall|x: usize| #[trigger] rs.contains(x) ==> has_pred_in(arcs, rs, x),
    ensures
        back_chain(arcs, rs, v, k).len() == k + 1,
        forall|m: int| 0 <= m <= k ==> rs.contains(#[trigger] back_chain(arcs, rs, v, k)[m]),
        forall|m: int| 0 <= m < k ==> #[trigger] back_step(arcs, back_chain(arcs, rs, v, k), m),
    decreases k,
{
    if k > 0 {
        lemma_back_chain(arcs, rs, v, (k - 1) as nat);
        let c = back_chain(arcs, rs, v, (k - 1) as nat);
        let d = back_chain(arcs, rs, v, k);
        assert(rs.contains(c[k - 1]));
        assert(rs.contains(c.last()));
        assert forall|m: int| 0 <= m < k implies #[trigger] back_step(arcs, d, m) by {
            if m < k - 1 {
                assert(back_step(arcs, c, m));
                assert(d[m] == c[m] && d[m + 1] == c[m + 1]);
            }
        }
    }
}

/// A sequence longer than `rs` drawn from `rs` repeats an element.
proof fn lemma_long_chain_repeats(c: Seq<usize>, rs: Seq<usize>)
    requires
        c.len() > rs.len(),
        forall|m: int| 0 <= m < c.len() ==> rs.contains(#[trigger] c[m]),
    ensures
        exists|a: int, b: int| 0 <= a < b < c.len() && c[a] == c[b],
{
    if c.no_duplicates() {
        c.unique_seq_to_set();
        rs.lemma_cardinality_of_set();
        assert forall|x: usize| c.to_set().contains(x) implies rs.to_set().contains(x) by {
            let m = choose|m: int| 0 <= m < c.len() && c[m] == x;
            assert(rs.contains(c[m]));
        }
        vstd::set_lib::lemma_len_subset(c.to_set(), rs.to_set());
        assert(false);
    } else {
        let (a, b) = choose|a: int, b: int| 0 <= a < c.len() && 0 <= b < c.len() && a != b && c[a] == c[b];
        if a < b {
            assert(0 <= a < b < c.len() && c[a] == c[b]);
        } else {
            assert(0 <= b < a < c.len() && c[b] == c[a]);
        }
    }
}

/// A chain of predecessors that repeats a vertex contains a closed walk.
proof fn lemma_repeat_closes_walk(arcs: Seq<(usize, usize)>, c: Seq<usize>, i: int, j: int)
    requires
        0 <= i < j < c.len(),
        c[i] == c[j],
        forall|m: int| 0 <= m < c.len() - 1 ==> #[trigger] back_step(arcs, c, m),
    ensures
        has_closed_walk(arcs),
{
    let w = Seq::new((j - i + 1) as nat, |t: int| c[j - t]);
    assert forall|t: int| 0 <= t < w.len() - 1 implies #[trigger] step_ok(arcs, w, t) by {
        let m = j - t - 1;
        assert(back_step(arcs, c, m));
        assert(w[t] == c[m + 1] && w[t + 1] == c[m]);
    }
    assert(is_walk(arcs, w) && w.len() >= 2 && w[0] == w.last());
}

/// Among vertices of an acyclic graph, some vertex has no arc coming from
/// the others.
proof fn lemma_source_exists(arcs: Seq<(usize, usize)>, rs: Seq<usize>)
    requires
        rs.len() > 0,
        !has_closed_walk(arcs),
    ensures
        exists|v: usize| rs.contains(v) && !has_pred_in(arcs, rs, v),
{
    if forall|x: usize| #[trigger] rs.contains(x) ==> has_pred_in(arcs, rs, x) {
        let v = rs[0];
        assert(rs.contains(v));
        let k = rs.len();
        lemma_back_chain(arcs, rs, v, k);
        let c = back_chain(arcs, rs, v, k);
        lemma_long_chain_repeats(c, rs);
        let (i, j) = choose|a: int, b: int| 0 <= a < b < c.len() && c[a] == c[b];
        lemma_repeat_closes_walk(arcs, c, i, j);
    }
}

/// The vertices of `rs` (listed once each) can be ordered so that every arc
/// between two of them goes forward, when the graph has no closed walk.
proof fn lemma_order_exists(arcs: Seq<(usize, usize)>, rs: Seq<usize>) -> (o: Seq<usize>)
    requires
        rs.no_duplicates(),
        !has_closed_walk(arcs),
    ensures
        o.len() == rs.len(),
        o.no_duplicates(),
        forall|x: usize| o.contains(x) <==> rs.contains(x),
        forall|k: int|
            0 <= k < arcs.len() && rs.contains((#[trigger] arcs[k]).0) && rs.contains(arcs[k].1)
                ==> goes_forward(o, arcs[k]),
    decreases rs.len(),
{
    if rs.len() == 0 {
        Seq::empty()
    } else {
        lemma_source_exists(arcs, rs);
        let v = choose|v: usize| rs.contains(v) && !has_pred_in(arcs, rs, v);
        let idx = choose|idx: int| 0 <= idx < rs.len() && rs[idx] == v;
        let rest = rs.remove(idx);
        rs.remove_ensures(idx);
        assert forall|x: usize| rest.contains(x) <==> (rs.contains(x) && x != v) by {
            if rest.contains(x) {
                let t = choose|t: int| 0 <= t < rest.len() && rest[t] == x;
                if t < idx {
                    assert(rs[t] == x);
                } else {
                    assert(rs[t + 1] == x);
                }
            }
            if rs.contains(x) && x != v {
                let t = choose|t: int| 0 <= t < rs.len() && rs[t] == x;
                if t < idx {
                    assert(rest[t] == x);
                } else {
                    assert(t != idx);
                    assert(rest[t - 1] == x);
                }
            }
        }
        assert(rest.no_duplicates()) by {
            assert forall|a: int, b: int|
                0 <= a < rest.len() && 0 <= b < rest.len() && a != b implies rest[a] != rest[b] by {
                let a2 = if a < idx { a } else { a + 1 };
                let b2 = if b < idx { b } else { b + 1 };
                assert(rest[a] == rs[a2] && rest[b] == rs[b2]);
            }
        }
        let o2 = lemma_order_exists(arcs, rest);
        let o = seq![v] + o2;
        assert(o.no_duplicates()) by {
            assert forall|a: int, b: int|
                0 <= a < o.len() && 0 <= b < o.len() && a != b implies o[a] != o[b] by {
                if a == 0 {
                    assert(o2.contains(o[b]));
                } else if b == 0 {
                    assert(o2.contains(o[a]));
                } else {
                    assert(o[a] == o2[a - 1] && o[b] == o2[b - 1]);
                }
            }
        }
        assert forall|x: usize| o.contains(x) <==> rs.contains(x) by {
            if o.contains(x) && x != v {
                let t = choose|t: int| 0 <= t < o.len() && o[t] == x;
                assert(o2[t - 1] == x);
                assert(o2.contains(x));
            }
            if rs.contains(x) && x != v {
                assert(o2.contains(x));
                let t = choose|t: int| 0 <= t < o2.len() && o2[t] == x;
                assert(o[t + 1] == x);
            }
            if x == v {
                assert(o[0] == v);
            }
        }
        assert forall|k: int|
            0 <= k < arcs.len() && rs.contains((#[trigger] arcs[k]).0) && rs.contains(arcs[k].1)
            implies goes_forward(o, arcs[k]) by {
            let (a, b) = arcs[k];
            assert(arcs.contains((a, b)));
            if a == b {
                let w = seq![a, a];
                assert(step_ok(arcs, w, 0));
                assert(is_walk(arcs, w));
                assert(false);
            } else if b == v {
                assert(rs.contains(a) && arcs.contains((a, v)));
                assert(has_pred_in(arcs, rs, v));
            } else if a == v {
                assert(rest.contains(b));
                assert(o2.contains(b));
                let t = choose|t: int| 0 <= t < o2.len() && o2[t] == b;
                assert(o[0] == a && o[t + 1] == b);
                assert(0 <= 0 < t + 1 < o.len());
            } else {
                assert(rest.contains(a) && rest.contains(b));
                assert(goes_forward(o2, arcs[k]));
                let (i, j) = choose|i: int, j: int|
                    0 <= i < j < o2.len() && o2[i] == arcs[k].0 && o2[j] == arcs[k].1;
                assert(o[i + 1] == a && o[j + 1] == b);
                assert(0 <= i + 1 < j + 1 < o.len());
            }
        }
        o
    }
}

/// A graph on vertices `0..n` has a topological order exactly when it has no
/// closed walk.
pub proof fn law_order_exists_iff_acyclic(n: usize, arcs: Seq<(usize, usize)>)
    requires
        arcs_below(n as nat, arcs),
    ensures
        (exists|o: Seq<usize>| is_topological_order(n as nat, arcs, o)) <==> !has_closed_walk(arcs),
{
    if has_closed_walk(arcs) {
        assert forall|o: Seq<usize>| !is_topological_order(n as nat, arcs, o) by {
            lemma_closed_walk_blocks_order(n as nat, arcs, o);
        }
    } else {
        let rs = Seq::new(n as nat, |i: int| i as usize);
        assert(rs.no_duplicates());
        let o = lemma_order_exists(arcs, rs);
        assert forall|i: int| 0 <= i < o.len() implies (#[trigger] o[i] as nat) < n as nat by {
            assert(o.contains(o[i]));
            assert(rs.contains(o[i]));
        }
        assert forall|k: int| 0 <= k < arcs.len() implies goes_forward(o, #[trigger] arcs[k]) by {
            assert(rs[arcs[k].0 as int] == arcs[k].0);
            assert(rs[arcs[k].1 as int] == arcs[k].1);
            assert(rs.contains(arcs[k].0) && rs.contains(arcs[k].1));
        }
        assert(is_topological_order(n as nat, arcs, o));
    }
}

/// The contents of an optional list of vertices.
pub open spec fn opt_order_view(r: Option<Vec<usize>>) -> Option<Seq<usize>> {
    match r {
        Some(v) => Some(v@),
        None => None,
    }
}

/// Every arc joins vertices below `n`.
pub open spec fn arcs_below(n: nat, arcs: Seq<(usize, usize)>) -> bool {
    forall|k: int| 0 <= k < arcs.len() ==> (#[trigger] arcs[k]).0 < n && arcs[k].1 < n
}

/// Declares petgraph's adjacency-list graph.
#[verifier::external_type_specification]
#[verifier::external_body]
#[verifier::reject_recursive_types(N)]
#[verifier::reject_recursive_types(E)]
#[verifier::reject_recursive_types(Ty)]
#[verifier::reject_recursive_types(Ix)]
pub struct ExGraph<N, E, Ty, Ix>(petgraph::graph::Graph<N, E, Ty, Ix>);

/// Declares petgraph's marker for directed graphs.
#[verifier::external_type_specification]
#[verifier::external_body]
pub struct ExDirected(petgraph::Directed);

/// The number of vertices of a graph.
pub uninterp spec fn vertex_count(g: petgraph::graph::Graph<(), (), petgraph::Directed, u32>) -> nat;

/// The arcs of a graph as pairs of vertex indices, in the order they were
/// added.
pub uninterp spec fn arc_list(g: petgraph::graph::Graph<(), (), petgraph::Directed, u32>) -> Seq<
    (usize, usize),
>;

/// `Graph::new`: a directed graph without vertices or arcs.
#[verifier::external_body]
fn new_digraph() -> (g: petgraph::graph::Graph<(), (), petgraph::Directed, u32>)
    ensures
        vertex_count(g) == 0,
        arc_list(g) == Seq::<(usize, usize)>::empty(),
{
    petgraph::graph::Graph::new()
}

/// `Graph::add_node`: appends a vertex, whose index is the former vertex
/// count.  petgraph panics when the count has reached the largest `u32`.
#[verifier::external_body]
fn add_vertex(g: &mut petgraph::graph::Graph<(), (), petgraph::Directed, u32>) -> (i: usize)
    requires
        vertex_count(*old(g)) < u32::MAX,
    ensures
        i == vertex_count(*old(g)),
        vertex_count(*final(g)) == vertex_count(*old(g)) + 1,
        arc_list(*final(g)) == arc_list(*old(g)),
{
    g.add_node(()).index()
}

/// `Graph::add_edge`: appends the arc `a -> b`.  petgraph panics when an end
/// is not a vertex or the arc count has reached the largest `u32`.
#[verifier::external_body]
fn add_arc(g: &mut petgraph::graph::Graph<(), (), petgraph::Directed, u32>, a: usize, b: usize)
    requires
        a < vertex_count(*old(g)),
        b < vertex_count(*old(g)),
        arc_list(*old(g)).len() < u32::MAX,
    ensures
        vertex_count(*final(g)) == vertex_count(*old(g)),
        arc_list(*final(g)) == arc_list(*old(g)).push((a, b)),
{
    g.add_edge(petgraph::graph::NodeIndex::new(a), petgraph::graph::NodeIndex::new(b), ());
}

/// `petgraph::algo::toposort`, with the vertex indices of the order.
/// Assumed, as petgraph documents, to give an order of all vertices in which
/// every arc goes forward when the graph is acyclic, and a cycle error
/// otherwise; the order depends on the vertices and the arcs in the order
/// they were added, and is named, not stated.
#[verifier::external_body]
fn toposort_call(g: &petgraph::graph::Graph<(), (), petgraph::Directed, u32>) -> (r: Option<
    Vec<usize>,
>)
    ensures
        opt_order_view(r) == toposort_of(vertex_count(*g), arc_list(*g)),
        r matches Some(o) ==> is_topological_order(vertex_count(*g), arc_list(*g), o@),
        r is None ==> forall|o: Seq<usize>| !is_topological_order(vertex_count(*g), arc_list(*g), o),
{
    match petgraph::algo::toposort(g, None) {
        Ok(order) => Some(order.iter().map(|v| v.index()).collect()),
        Err(_) => None,
    }
}

/// `petgraph::algo::has_path_connecting`.  Assumed, as petgraph documents,
/// to tell whether a path leads from `from` to `to` (true when they are
/// equal).  petgraph panics when an end is not a vertex.
#[verifier::external_body]
fn has_path_call(
    g: &petgraph::graph::Graph<(), (), petgraph::Directed, u32>,
    from: usize,
    to: usize,
) -> (r: bool)
    requires
        from < vertex_count(*g),
        to < vertex_count(*g),
    ensures
        r == reaches(arc_list(*g), from, to),
{
    petgraph::algo::has_path_connecting(
        g,
        petgraph::graph::NodeIndex::new(from),
        petgraph::graph::NodeIndex::new(to),
        None,
    )
}

/// The graph with vertices `0..n` and `arcs` added in order.
fn build_digraph(n: usize, arcs: &[(usize, usize)]) -> (g: petgraph::graph::Graph<
    (),
    (),
    petgraph::Directed,
    u32,
>)
    requires
        n <= u32::MAX,
        arcs@.len() <= u32::MAX,
        arcs_below(n as nat, arcs@),
    ensures
        vertex_count(g) == n,
        arc_list(g) == arcs@,
{
    let mut g = new_digraph();
    let mut i: usize = 0;
    while i < n
        invariant
            i <= n <= u32::MAX,
            vertex_count(g) == i,
            arc_list(g) == Seq::<(usize, usize)>::empty(),
        decreases n - i,
    {
        add_vertex(&mut g);
        i = i + 1;
    }
    let mut k: usize = 0;
    while k < arcs.len()
        invariant
            k <= arcs@.len() <= u32::MAX,
            arcs_below(n as nat, arcs@),
            vertex_count(g) == n,
            arc_list(g) == arcs@.take(k as int),
        decreases arcs@.len() - k,
    {
        let (a, b) = arcs[k];
        assert(arcs@[k as int].0 < n && arcs@[k as int].1 < n);
        add_arc(&mut g, a, b);
        assert(arcs@.take(k + 1) =~= arcs@.take(k as int).push((a, b)));
        k = k + 1;
    }
    assert(arcs@.take(arcs@.len() as int) =~= arcs@);
    g
}

/// The position of the last node with id `x`.
pub open spec fn last_index(ids: Seq<Seq<u8>>, x: Seq<u8>) -> Option<nat>
    decreases ids.len(),
{
    if ids.len() == 0 {
        None
    } else if ids.last() == x {
        Some((ids.len() - 1) as nat)
    } else {
        last_index(ids.drop_last(), x)
    }
}

proof fn lemma_last_index_bound(ids: Seq<Seq<u8>>, x: Seq<u8>)
    ensures
        last_index(ids, x) matches Some(i) ==> i < ids.len() && ids[i as int] == x,
        last_index(ids, x) is None ==> !ids.contains(x),
    decreases ids.len(),
{
    if ids.len() > 0 {
        lemma_last_index_bound(ids.drop_last(), x);
        if ids.last() != x && ids.contains(x) {
            let i = choose|i: int| 0 <= i < ids.len() && ids[i] == x;
            assert(ids.drop_last()[i] == x);
        }
    }
}

/// Both ends of the edge name a node.
pub open spec fn edge_known(ids: Seq<Seq<u8>>, e: (Seq<u8>, Seq<u8>)) -> bool {
    last_index(ids, e.0) is Some && last_index(ids, e.1) is Some
}

/// The edge between the last positions of its ends.
pub open spec fn edge_as_arc(ids: Seq<Seq<u8>>, e: (Seq<u8>, Seq<u8>)) -> (usize, usize) {
    ((last_index(ids, e.0)->0) as usize, (last_index(ids, e.1)->0) as usize)
}

/// The graph that the graph algorithms run on: one vertex per node position;
/// an edge whose ends both name nodes joins the last positions of those ids.
pub open spec fn index_arcs(ids: Seq<Seq<u8>>, edges: Seq<(Seq<u8>, Seq<u8>)>) -> Seq<(usize, usize)> {
    edges.filter(|e: (Seq<u8>, Seq<u8>)| edge_known(ids, e)).map_values(
        |e: (Seq<u8>, Seq<u8>)| edge_as_arc(ids, e),
    )
}

/// The position of the last node with id `x`.
fn find_last(nodes: &[Vec<u8>], x: &[u8]) -> (r: Option<usize>)
    ensures
        r matches Some(i) ==> last_index(views(nodes@), x@) == Some(i as nat),
        r is None ==> last_index(views(nodes@), x@) is None,
{
    let mut i: usize = nodes.len();
    assert(views(nodes@).take(i as int) =~= views(nodes@));
    while i > 0
        invariant
            i <= nodes@.len(),
            last_index(views(nodes@), x@) == last_index(views(nodes@).take(i as int), x@),
        decreases i,
    {
        let ghost t = views(nodes@).take(i as int);
        assert(t.last() == nodes@[i - 1]@);
        assert(t.drop_last() =~= views(nodes@).take(i - 1));
        if bytes_eq(nodes[i - 1].as_slice(), x) {
            return Some(i - 1);
        }
        i = i - 1;
    }
    assert(views(nodes@).take(0) =~= Seq::<Seq<u8>>::empty());
    None
}

/// Builds the vertex-index graph of `nodes` and `edges`.
fn build_index_arcs(nodes: &[Vec<u8>], edges: &[(Vec<u8>, Vec<u8>)]) -> (r: Vec<(usize, usize)>)
    ensures
        r@ == index_arcs(views(nodes@), pair_views(edges@)),
        arcs_below(nodes@.len() as nat, r@),
        r@.len() <= edges@.len(),
{
    let ghost ids = views(nodes@);
    let ghost f = |e: (Seq<u8>, Seq<u8>)| edge_known(ids, e);
    let ghost g = |e: (Seq<u8>, Seq<u8>)| edge_as_arc(ids, e);
    let mut out: Vec<(usize, usize)> = Vec::new();
    let mut i: usize = 0;
    assert(pair_views(edges@.take(0)) =~= Seq::<(Seq<u8>, Seq<u8>)>::empty());
    assert(pair_views(edges@.take(0)).filter(f).map_values(g) =~= Seq::<(usize, usize)>::empty())
        by {
        reveal_with_fuel(Seq::<_>::filter, 1);
    }
    while i < edges.len()
        invariant
            i <= edges@.len(),
            ids == views(nodes@),
            f == (|e: (Seq<u8>, Seq<u8>)| edge_known(ids, e)),
            g == (|e: (Seq<u8>, Seq<u8>)| edge_as_arc(ids, e)),
            out@ == pair_views(edges@.take(i as int)).filter(f).map_values(g),
            arcs_below(nodes@.len() as nat, out@),
            out@.len() <= i,
        decreases edges@.len() - i,
    {
        let ghost pre = pair_views(edges@.take(i as int));
        let ghost post = pair_views(edges@.take(i + 1));
        proof {
            lemma_pair_views_take_push(edges@, i as int);
            reveal_with_fuel(Seq::<_>::filter, 1);
        }
        let a = find_last(nodes, edges[i].0.as_slice());
        let b = find_last(nodes, edges[i].1.as_slice());
        proof {
            lemma_last_index_bound(ids, post.last().0);
            lemma_last_index_bound(ids, post.last().1);
        }
        match (a, b) {
            (Some(ia), Some(ib)) => {
                let ghost before = out@;
                out.push((ia, ib));
                proof {
                    assert(f(post.last()));
                    assert(post.filter(f) == pre.filter(f).push(post.last()));
                    assert(post.filter(f).map_values(g) =~= pre.filter(f).map_values(g).push(
                        g(post.last()),
                    ));
                    assert(out@ =~= before.push((ia, ib)));
                }
            },
            _ => {
                assert(!f(post.last()));
                assert(post.filter(f) == pre.filter(f));
            },
        }
        i = i + 1;
    }
    assert(edges@.take(edges@.len() as int) =~= edges@);
    out
}

/// The node ids listed in an order of vertex positions.
pub open spec fn ids_in_order(ids: Seq<Seq<u8>>, o: Seq<usize>) -> Seq<Seq<u8>> {
    o.map_values(|i: usize| ids[i as int])
}

/// Sorts the nodes so that every cause comes before its effects.  `None`
/// when the graph has a cycle (a self loop included).
pub fn topo_sort(nodes: &[Vec<u8>], edges: &[(Vec<u8>, Vec<u8>)]) -> (r: Option<Vec<Vec<u8>>>)
    requires
        nodes@.len() <= u32::MAX,
        edges@.len() <= u32::MAX,
    ensures
        ({
            let ids = views(nodes@);
            let arcs = index_arcs(ids, pair_views(edges@));
            &&& r is None <==> toposort_of(ids.len(), arcs) is None
            &&& r matches Some(v) ==> views(v@) == ids_in_order(ids, toposort_of(ids.len(), arcs)->0)
            &&& r is None <==> forall|o: Seq<usize>| !is_topological_order(ids.len(), arcs, o)
            &&& r is None <==> has_closed_walk(arcs)
            &&& r matches Some(v) ==> exists|o: Seq<usize>|
                is_topological_order(ids.len(), arcs, o) && views(v@) == ids_in_order(ids, o)
        }),
{
    let arcs = build_index_arcs(nodes, edges);
    proof {
        law_order_exists_iff_acyclic(nodes.len(), arcs@);
    }
    let g = build_digraph(nodes.len(), arcs.as_slice());
    match toposort_call(&g) {
        Some(order) => {
            let ghost ids = views(nodes@);
            let mut out: Vec<Vec<u8>> = Vec::new();
            let mut k: usize = 0;
            while k < order.len()
                invariant
                    k <= order@.len(),
                    ids == views(nodes@),
                    forall|i: int| 0 <= i < order@.len() ==> (#[trigger] order@[i] as nat) < ids.len(),
                    views(out@).len() == k,
                    forall|j: int| 0 <= j < k ==> #[trigger] views(out@)[j] == ids[order@[j] as int],
                decreases order@.len() - k,
            {
                let c = copy_bytes(nodes[order[k]].as_slice());
                let ghost before = out@;
                out.push(c);
                assert(views(out@) =~= views(before).push(c@));
                k = k + 1;
            }
            assert(views(out@) =~= ids_in_order(ids, order@));
            Some(out)
        },
        None => None,
    }
}

/// Whether the graph has a cycle (a self loop included): exactly when no
/// topological order exists.
pub fn has_cycle(nodes: &[Vec<u8>], edges: &[(Vec<u8>, Vec<u8>)]) -> (r: bool)
    requires
        nodes@.len() <= u32::MAX,
        edges@.len() <= u32::MAX,
    ensures
        ({
            let ids = views(nodes@);
            let arcs = index_arcs(ids, pair_views(edges@));
            &&& r == toposort_of(ids.len(), arcs) is None
            &&& r <==> forall|o: Seq<usize>| !is_topological_order(ids.len(), arcs, o)
            &&& r == has_closed_walk(arcs)
        }),
{
    let arcs = build_index_arcs(nodes, edges);
    proof {
        law_order_exists_iff_acyclic(nodes.len(), arcs@);
    }
    let g = build_digraph(nodes.len(), arcs.as_slice());
    toposort_call(&g).is_none()
}

/// Whether a path of edges leads from `from` to `to` (true when both are
/// nodes and equal; false when either is not a node).
pub fn has_path(nodes: &[Vec<u8>], edges: &[(Vec<u8>, Vec<u8>)], from: &[u8], to: &[u8]) -> (r: bool)
    requires
        nodes@.len() <= u32::MAX,
        edges@.len() <= u32::MAX,
    ensures
        ({
            let ids = views(nodes@);
            let arcs = index_arcs(ids, pair_views(edges@));
            r == (last_index(ids, from@) is Some && last_index(ids, to@) is Some && reaches(
                arcs,
                (last_index(ids, from@)->0) as usize,
                (last_index(ids, to@)->0) as usize,
            ))
        }),
{
    let arcs = build_index_arcs(nodes, edges);
    let a = find_last(nodes, from);
    let b = find_last(nodes, to);
    proof {
        lemma_last_index_bound(views(nodes@), from@);
        lemma_last_index_bound(views(nodes@), to@);
    }
    match (a, b) {
        (Some(ia), Some(ib)) => {
            let g = build_digraph(nodes.len(), arcs.as_slice());
            has_path_call(&g, ia, ib)
        },
        _ => false,
    }
}

/// An arc between children is an edge leaving a known node.
proof fn lemma_child_arc(nodes: Seq<Seq<u8>>, edges: Seq<(Seq<u8>, Seq<u8>)>, a: Seq<u8>, b: Seq<u8>)
    requires
        child_arcs(nodes, edges).contains((a, b)),
    ensures
        edges.contains((a, b)),
        nodes.contains(a),
{
    let f = |e: (Seq<u8>, Seq<u8>)| nodes.contains(e.0);
    edges.lemma_filter_contains_rev(f, (a, b));
    let m = choose|m: int| 0 <= m < edges.filter(f).len() && edges.filter(f)[m] == (a, b);
    edges.lemma_filter_pred(f, m);
}

/// A parent arc `(a, b)` is the edge `(b, a)` entering the known node `a`.
proof fn lemma_parent_arc(nodes: Seq<Seq<u8>>, edges: Seq<(Seq<u8>, Seq<u8>)>, a: Seq<u8>, b: Seq<u8>)
    requires
        parent_arcs(nodes, edges).contains((a, b)),
    ensures
        edges.contains((b, a)),
        nodes.contains(a),
{
    let f = |e: (Seq<u8>, Seq<u8>)| nodes.contains(e.1);
    let kept = edges.filter(f);
    let sw = kept.map_values(|e: (Seq<u8>, Seq<u8>)| (e.1, e.0));
    assert(sw == parent_arcs(nodes, edges));
    let m = choose|m: int| 0 <= m < sw.len() && #[trigger] sw[m] == (a, b);
    assert(kept[m] == (b, a));
    edges.lemma_filter_pred(f, m);
    edges.lemma_filter_contains_rev(f, (b, a));
}

/// An edge between two known nodes gives an arc of the indexed graph, and
/// arcs of both the child and the parent graphs.
proof fn lemma_known_edge(nodes: Seq<Seq<u8>>, edges: Seq<(Seq<u8>, Seq<u8>)>, a: Seq<u8>, b: Seq<u8>)
    requires
        edges.contains((a, b)),
        nodes.contains(a),
        nodes.contains(b),
    ensures
        index_arcs(nodes, edges).contains(
            ((last_index(nodes, a)->0) as usize, (last_index(nodes, b)->0) as usize),
        ),
        child_arcs(nodes, edges).contains((a, b)),
        parent_arcs(nodes, edges).contains((b, a)),
{
    lemma_last_index_bound(nodes, a);
    lemma_last_index_bound(nodes, b);
    let k = choose|k: int| 0 <= k < edges.len() && edges[k] == (a, b);
    let f = |e: (Seq<u8>, Seq<u8>)| edge_known(nodes, e);
    let g = |e: (Seq<u8>, Seq<u8>)| edge_as_arc(nodes, e);
    assert(f(edges[k]));
    edges.lemma_filter_contains(f, k);
    let m = choose|m: int| 0 <= m < edges.filter(f).len() && edges.filter(f)[m] == (a, b);
    assert(edges.filter(f).map_values(g)[m] == g((a, b)));
    let fc = |e: (Seq<u8>, Seq<u8>)| nodes.contains(e.0);
    assert(fc(edges[k]));
    edges.lemma_filter_contains(fc, k);
    let fp = |e: (Seq<u8>, Seq<u8>)| nodes.contains(e.1);
    assert(fp(edges[k]));
    edges.lemma_filter_contains(fp, k);
    let n = choose|n: int| 0 <= n < edges.filter(fp).len() && edges.filter(fp)[n] == (a, b);
    assert(edges.filter(fp).map_values(|e: (Seq<u8>, Seq<u8>)| (e.1, e.0))[n] == (b, a));
}

/// An arc of the indexed graph joins two node positions whose ids form an
/// edge.
proof fn lemma_index_arc(nodes: Seq<Seq<u8>>, edges: Seq<(Seq<u8>, Seq<u8>)>, i: usize, j: usize)
    requires
        index_arcs(nodes, edges).contains((i, j)),
        nodes.len() <= usize::MAX,
    ensures
        i < nodes.len(),
        j < nodes.len(),
        edges.contains((nodes[i as int], nodes[j as int])),
{
    let f = |e: (Seq<u8>, Seq<u8>)| edge_known(nodes, e);
    let g = |e: (Seq<u8>, Seq<u8>)| edge_as_arc(nodes, e);
    let kept = edges.filter(f);
    let mapped = kept.map_values(g);
    let m = choose|m: int| 0 <= m < mapped.len() && #[trigger] mapped[m] == (i, j);
    let e = kept[m];
    edges.lemma_filter_pred(f, m);
    edges.lemma_filter_contains_rev(f, e);
    lemma_last_index_bound(nodes, e.0);
    lemma_last_index_bound(nodes, e.1);
    assert(g(e) == (i, j));
    assert((last_index(nodes, e.0)->0) as usize as int == last_index(nodes, e.0)->0);
    assert((last_index(nodes, e.1)->0) as usize as int == last_index(nodes, e.1)->0);
    assert(nodes[i as int] == e.0 && nodes[j as int] == e.1);
}

/// Reachability between two nodes agrees in the three readings of the
/// graph: along edges leaving known nodes (descendants), along the indexed
/// graph of `has_path`, and backwards along edges entering known nodes
/// (ancestors).  With `u != v`, `v` is a descendant of `u` exactly when
/// `has_path(u, v)` holds, exactly when `u` is an ancestor of `v`.
pub proof fn law_reachability_agrees(
    nodes: Seq<Seq<u8>>,
    edges: Seq<(Seq<u8>, Seq<u8>)>,
    u: Seq<u8>,
    v: Seq<u8>,
)
    requires
        nodes.len() <= usize::MAX,
        nodes.contains(u),
        nodes.contains(v),
    ensures
        reaches(child_arcs(nodes, edges), u, v) == reaches(
            index_arcs(nodes, edges),
            (last_index(nodes, u)->0) as usize,
            (last_index(nodes, v)->0) as usize,
        ),
        reaches(child_arcs(nodes, edges), u, v) == reaches(parent_arcs(nodes, edges), v, u),
{
    let c = child_arcs(nodes, edges);
    let pa = parent_arcs(nodes, edges);
    let ia = index_arcs(nodes, edges);
    let iu = (last_index(nodes, u)->0) as usize;
    let iv = (last_index(nodes, v)->0) as usize;
    lemma_last_index_bound(nodes, u);
    lemma_last_index_bound(nodes, v);
    assert(iu as int == last_index(nodes, u)->0 && iv as int == last_index(nodes, v)->0);
    if reaches(c, u, v) {
        let p = choose|p: Seq<Seq<u8>>| #[trigger] is_walk(c, p) && p[0] == u && p.last() == v;
        lemma_child_walk_known(nodes, edges, p);
        let q = Seq::new(p.len(), |t: int| (last_index(nodes, p[t])->0) as usize);
        assert forall|t: int| 0 <= t < q.len() - 1 implies #[trigger] step_ok(ia, q, t) by {
            assert(step_ok(c, p, t));
            lemma_child_arc(nodes, edges, p[t], p[t + 1]);
            lemma_known_edge(nodes, edges, p[t], p[t + 1]);
        }
        assert(is_walk(ia, q) && q[0] == iu && q.last() == iv);
        let w = Seq::new(p.len(), |t: int| p[p.len() - 1 - t]);
        assert forall|t: int| 0 <= t < w.len() - 1 implies #[trigger] step_ok(pa, w, t) by {
            let m = p.len() - 2 - t;
            assert(step_ok(c, p, m));
            lemma_child_arc(nodes, edges, p[m], p[m + 1]);
            lemma_known_edge(nodes, edges, p[m], p[m + 1]);
            assert(w[t] == p[m + 1] && w[t + 1] == p[m]);
        }
        assert(is_walk(pa, w) && w[0] == v && w.last() == u);
    }
    if reaches(ia, iu, iv) {
        let q = choose|q: Seq<usize>| #[trigger] is_walk(ia, q) && q[0] == iu && q.last() == iv;
        let p = Seq::new(q.len(), |t: int| nodes[q[t] as int]);
        assert forall|t: int| 0 <= t < p.len() - 1 implies #[trigger] step_ok(c, p, t) by {
            assert(step_ok(ia, q, t));
            lemma_index_arc(nodes, edges, q[t], q[t + 1]);
            lemma_known_edge(nodes, edges, nodes[q[t] as int], nodes[q[t + 1] as int]);
        }
        assert(p[0] == nodes[iu as int]);
        assert(is_walk(c, p) && p[0] == u && p.last() == v);
    }
    if reaches(pa, v, u) {
        let p = choose|p: Seq<Seq<u8>>| #[trigger] is_walk(pa, p) && p[0] == v && p.last() == u;
        lemma_parent_walk_known(nodes, edges, p);
        let w = Seq::new(p.len(), |t: int| p[p.len() - 1 - t]);
        assert forall|t: int| 0 <= t < w.len() - 1 implies #[trigger] step_ok(c, w, t) by {
            let m = p.len() - 2 - t;
            assert(step_ok(pa, p, m));
            lemma_parent_arc(nodes, edges, p[m], p[m + 1]);
            lemma_known_edge(nodes, edges, p[m + 1], p[m]);
            assert(w[t] == p[m + 1] && w[t + 1] == p[m]);
        }
        assert(is_walk(c, w) && w[0] == u && w.last() == v);
    }
}

/// Every vertex of a child walk that ends at a node is a node.
proof fn lemma_child_walk_known(nodes: Seq<Seq<u8>>, edges: Seq<(Seq<u8>, Seq<u8>)>, p: Seq<Seq<u8>>)
    requires
        is_walk(child_arcs(nodes, edges), p),
        nodes.contains(p.last()),
    ensures
        forall|t: int| 0 <= t < p.len() ==> nodes.contains(#[trigger] p[t]),
{
    assert forall|t: int| 0 <= t < p.len() implies nodes.contains(#[trigger] p[t]) by {
        if t < p.len() - 1 {
            assert(step_ok(child_arcs(nodes, edges), p, t));
            lemma_child_arc(nodes, edges, p[t], p[t + 1]);
        }
    }
}

/// Every vertex of a parent walk that ends at a node is a node.
proof fn lemma_parent_walk_known(nodes: Seq<Seq<u8>>, edges: Seq<(Seq<u8>, Seq<u8>)>, p: Seq<Seq<u8>>)
    requires
        is_walk(parent_arcs(nodes, edges), p),
        nodes.contains(p.last()),
    ensures
        forall|t: int| 0 <= t < p.len() ==> nodes.contains(#[trigger] p[t]),
{
    assert forall|t: int| 0 <= t < p.len() implies nodes.contains(#[trigger] p[t]) by {
        if t < p.len() - 1 {
            assert(step_ok(parent_arcs(nodes, edges), p, t));
            lemma_parent_arc(nodes, edges, p[t], p[t + 1]);
        }
    }
}

/// `v` ends a walk of at most `d` steps from one of `roots`.
pub open spec fn within(arcs: Seq<(Seq<u8>, Seq<u8>)>, roots: Seq<Seq<u8>>, v: Seq<u8>, d: nat) -> bool {
    exists|p: Seq<Seq<u8>>|
        #[trigger] is_walk(arcs, p) && roots.contains(p[0]) && p.last() == v && p.len() <= d + 1
}

/// `v` is exactly `d` steps from the nearest root.
pub open spec fn at_distance(
    arcs: Seq<(Seq<u8>, Seq<u8>)>,
    roots: Seq<Seq<u8>>,
    v: Seq<u8>,
    d: nat,
) -> bool {
    within(arcs, roots, v, d) && (d == 0 || !within(arcs, roots, v, (d - 1) as nat))
}

/// `r` is the greatest distance from the roots of any vertex they reach
/// (0 when there are no roots).
pub open spec fn is_max_depth(arcs: Seq<(Seq<u8>, Seq<u8>)>, roots: Seq<Seq<u8>>, r: nat) -> bool {
    &&& roots.len() == 0 ==> r == 0
    &&& roots.len() > 0 ==> exists|v: Seq<u8>| #[trigger] at_distance(arcs, roots, v, r)
    &&& forall|v: Seq<u8>, e: nat| #[trigger] within(arcs, roots, v, e) ==> within(arcs, roots, v, r)
}

proof fn lemma_within_zero(arcs: Seq<(Seq<u8>, Seq<u8>)>, roots: Seq<Seq<u8>>, v: Seq<u8>)
    ensures
        within(arcs, roots, v, 0) <==> roots.contains(v),
{
    if roots.contains(v) {
        let p = seq![v];
        assert(is_walk(arcs, p));
    }
}

proof fn lemma_within_mono(
    arcs: Seq<(Seq<u8>, Seq<u8>)>,
    roots: Seq<Seq<u8>>,
    v: Seq<u8>,
    d: nat,
    e: nat,
)
    requires
        within(arcs, roots, v, d),
        d <= e,
    ensures
        within(arcs, roots, v, e),
{
    let p = choose|p: Seq<Seq<u8>>|
        #[trigger] is_walk(arcs, p) && roots.contains(p[0]) && p.last() == v && p.len() <= d + 1;
    assert(is_walk(arcs, p) && roots.contains(p[0]) && p.last() == v && p.len() <= e + 1);
}

proof fn lemma_within_step(
    arcs: Seq<(Seq<u8>, Seq<u8>)>,
    roots: Seq<Seq<u8>>,
    u: Seq<u8>,
    y: Seq<u8>,
    d: nat,
)
    requires
        within(arcs, roots, u, d),
        arcs.contains((u, y)),
    ensures
        within(arcs, roots, y, d + 1),
{
    let p = choose|p: Seq<Seq<u8>>|
        #[trigger] is_walk(arcs, p) && roots.contains(p[0]) && p.last() == u && p.len() <= d + 1;
    let q = p.push(y);
    assert forall|i: int| 0 <= i < q.len() - 1 implies #[trigger] step_ok(arcs, q, i) by {
        if i < p.len() - 1 {
            assert(step_ok(arcs, p, i));
        }
    }
    assert(is_walk(arcs, q) && roots.contains(q[0]) && q.last() == y && q.len() <= d + 2);
}

/// A vertex first reached in `d + 1` steps has a predecessor at distance `d`.
proof fn lemma_within_pred(
    arcs: Seq<(Seq<u8>, Seq<u8>)>,
    roots: Seq<Seq<u8>>,
    y: Seq<u8>,
    d: nat,
) -> (u: Seq<u8>)
    requires
        within(arcs, roots, y, d + 1),
        !within(arcs, roots, y, d),
    ensures
        at_distance(arcs, roots, u, d),
        arcs.contains((u, y)),
{
    let p = choose|p: Seq<Seq<u8>>|
        #[trigger] is_walk(arcs, p) && roots.contains(p[0]) && p.last() == y && p.len() <= d + 2;
    if p.len() <= d + 1 {
        assert(is_walk(arcs, p) && roots.contains(p[0]) && p.last() == y && p.len() <= d + 1);
    }
    assert(p.len() == d + 2);
    let q = p.drop_last();
    assert forall|i: int| 0 <= i < q.len() - 1 implies #[trigger] step_ok(arcs, q, i) by {
        assert(step_ok(arcs, p, i));
    }
    assert(is_walk(arcs, q) && roots.contains(q[0]) && q.len() <= d + 1);
    let u = q.last();
    assert(step_ok(arcs, p, p.len() - 2));
    if d > 0 && within(arcs, roots, u, (d - 1) as nat) {
        lemma_within_step(arcs, roots, u, y, (d - 1) as nat);
    }
    u
}

/// When no vertex is first reached in `d + 1` steps, every reachable vertex
/// is within `d` steps.
proof fn lemma_within_closed(
    arcs: Seq<(Seq<u8>, Seq<u8>)>,
    roots: Seq<Seq<u8>>,
    d: nat,
    y: Seq<u8>,
    e: nat,
)
    requires
        forall|v: Seq<u8>| #[trigger] within(arcs, roots, v, d + 1) ==> within(arcs, roots, v, d),
        within(arcs, roots, y, e),
    ensures
        within(arcs, roots, y, d),
    decreases e,
{
    if e > d {
        if !within(arcs, roots, y, (e - 1) as nat) {
            let u = lemma_within_pred(arcs, roots, y, (e - 1) as nat);
            lemma_within_closed(arcs, roots, d, u, (e - 1) as nat);
            lemma_within_step(arcs, roots, u, y, d);
        } else {
            lemma_within_closed(arcs, roots, d, y, (e - 1) as nat);
        }
    } else {
        lemma_within_mono(arcs, roots, y, e, d);
    }
}

/// Some member of `frontier` has an arc to `y`.
pub open spec fn fed_by(arcs: Seq<(Seq<u8>, Seq<u8>)>, frontier: Seq<Seq<u8>>, y: Seq<u8>) -> bool {
    exists|u: Seq<u8>| frontier.contains(u) && #[trigger] arcs.contains((u, y))
}

/// Visits the unvisited neighbours of the frontier, in frontier and arc
/// order, adding each once to `visited` and to the new frontier.
#[verifier::spinoff_prover]
fn expand_layer(
    arcs: &Vec<(Vec<u8>, Vec<u8>)>,
    frontier: &Vec<Vec<u8>>,
    visited: &mut Vec<Vec<u8>>,
) -> (next: Vec<Vec<u8>>)
    requires
        views(old(visited)@).no_duplicates(),
    ensures
        views(final(visited)@) == views(old(visited)@) + views(next@),
        views(final(visited)@).no_duplicates(),
        forall|y: Seq<u8>|
            views(next@).contains(y) ==> !views(old(visited)@).contains(y) && fed_by(
                pair_views(arcs@),
                views(frontier@),
                y,
            ),
        forall|u: Seq<u8>, y: Seq<u8>|
            views(frontier@).contains(u) && #[trigger] pair_views(arcs@).contains((u, y))
                ==> views(final(visited)@).contains(y),
{
    let ghost a = pair_views(arcs@);
    let ghost v0 = views(visited@);
    let ghost fr = views(frontier@);
    let mut next: Vec<Vec<u8>> = Vec::new();
    assert(views(visited@) =~= v0 + views(next@));
    let mut f: usize = 0;
    while f < frontier.len()
        invariant
            a == pair_views(arcs@),
            fr == views(frontier@),
            f <= fr.len(),
            views(visited@) == v0 + views(next@),
            views(visited@).no_duplicates(),
            forall|y: Seq<u8>|
                views(next@).contains(y) ==> !v0.contains(y) && fed_by(a, fr, y),
            forall|j: int, y: Seq<u8>|
                0 <= j < f && #[trigger] a.contains((fr[j], y)) ==> views(visited@).contains(y),
        decreases fr.len() - f,
    {
        let ghost u = fr[f as int];
        let ghost vis_f = views(visited@);
        let mut k: usize = 0;
        while k < arcs.len()
            invariant
                a == pair_views(arcs@),
                fr == views(frontier@),
                f < fr.len(),
                u == fr[f as int],
                k <= a.len(),
                views(visited@) == v0 + views(next@),
                views(visited@).no_duplicates(),
                forall|x: Seq<u8>| vis_f.contains(x) ==> views(visited@).contains(x),
                forall|y: Seq<u8>|
                    views(next@).contains(y) ==> !v0.contains(y) && fed_by(a, fr, y),
                forall|j: int, y: Seq<u8>|
                    0 <= j < f && #[trigger] a.contains((fr[j], y)) ==> vis_f.contains(y),
                forall|m: int| 0 <= m < k && (#[trigger] a[m]).0 == u ==> views(visited@).contains(a[m].1),
            decreases a.len() - k,
        {
            assert(a[k as int] == (arcs@[k as int].0@, arcs@[k as int].1@));
            if bytes_eq(arcs[k].0.as_slice(), frontier[f].as_slice()) && !contains_bytes(
                visited.as_slice(),
                arcs[k].1.as_slice(),
            ) {
                let ghost vb = views(visited@);
                let ghost nb = views(next@);
                let y = arcs[k].1.as_slice();
                visited.push(copy_bytes(y));
                next.push(copy_bytes(y));
                proof {
                    assert(views(visited@) =~= vb.push(y@));
                    assert(views(next@) =~= nb.push(y@));
                    assert(views(visited@) =~= v0 + views(next@));
                    assert(!vb.contains(y@));
                    assert(views(visited@).no_duplicates()) by {
                        assert forall|p: int, q: int|
                            0 <= p < views(visited@).len() && 0 <= q < views(visited@).len() && p
                                != q implies views(visited@)[p] != views(visited@)[q] by {
                            if p == vb.len() as int && q < vb.len() {
                                assert(vb[q] == views(visited@)[q]);
                            } else if q == vb.len() as int && p < vb.len() {
                                assert(vb[p] == views(visited@)[p]);
                            }
                        }
                    }
                    assert(!v0.contains(y@)) by {
                        if v0.contains(y@) {
                            let i = choose|i: int| 0 <= i < v0.len() && v0[i] == y@;
                            assert(vb[i] == y@);
                        }
                    }
                    assert(a.contains((u, y@)));
                    assert(fr.contains(u));
                    assert(fed_by(a, fr, y@));
                    assert forall|x: Seq<u8>| vb.contains(x) implies views(visited@).contains(x) by {
                        lemma_contains_push(vb, y@, x);
                    }
                    assert forall|x: Seq<u8>| views(next@).contains(x) implies nb.contains(x) || x
                        == y@ by {
                        lemma_contains_push(nb, y@, x);
                    }
                    lemma_contains_push(vb, y@, y@);
                }
            }
            k = k + 1;
        }
        proof {
            assert forall|j: int, y: Seq<u8>|
                0 <= j < f + 1 && #[trigger] a.contains((fr[j], y)) implies views(
                visited@,
            ).contains(y) by {
                if j == f {
                    let m = choose|m: int| 0 <= m < a.len() && a[m] == (fr[j], y);
                    assert(a[m].0 == u);
                }
            }
        }
        f = f + 1;
    }
    proof {
        assert forall|u: Seq<u8>, y: Seq<u8>|
            fr.contains(u) && #[trigger] a.contains((u, y)) implies views(visited@).contains(y) by {
            let j = choose|j: int| 0 <= j < fr.len() && fr[j] == u;
            assert(a.contains((fr[j], y)));
        }
    }
    next
}

/// Breadth-first layers from the roots: the number of the last non-empty
/// layer.
fn layered_depth(arcs: &Vec<(Vec<u8>, Vec<u8>)>, roots: &Vec<Vec<u8>>) -> (r: u32)
    requires
        roots@.len() > 0,
        roots@.len() + arcs@.len() <= u32::MAX,
    ensures
        is_max_depth(pair_views(arcs@), views(roots@), r as nat),
{
    let ghost a = pair_views(arcs@);
    let ghost rs = views(roots@);
    let ghost universe = rs + edge_targets(a);
    let mut visited: Vec<Vec<u8>> = Vec::new();
    let mut frontier: Vec<Vec<u8>> = Vec::new();
    let mut i: usize = 0;
    assert(views(visited@) =~= Seq::<Seq<u8>>::empty());
    assert(views(frontier@) =~= Seq::<Seq<u8>>::empty());
    while i < roots.len()
        invariant
            rs == views(roots@),
            i <= rs.len(),
            views(visited@) == views(frontier@),
            views(visited@).no_duplicates(),
            i > 0 ==> visited@.len() > 0,
            forall|v: Seq<u8>| views(visited@).contains(v) <==> rs.take(i as int).contains(v),
        decreases rs.len() - i,
    {
        let ghost vb = views(visited@);
        let ghost t = rs.take(i as int);
        let ghost t1 = rs.take(i + 1);
        assert(t1 =~= t.push(rs[i as int]));
        if !contains_bytes(visited.as_slice(), roots[i].as_slice()) {
            let r = roots[i].as_slice();
            visited.push(copy_bytes(r));
            frontier.push(copy_bytes(r));
            proof {
                assert(views(visited@) =~= vb.push(r@));
                assert(views(frontier@) =~= vb.push(r@));
                assert(views(visited@).no_duplicates()) by {
                    assert forall|p: int, q: int|
                        0 <= p < views(visited@).len() && 0 <= q < views(visited@).len() && p
                            != q implies views(visited@)[p] != views(visited@)[q] by {
                        if p == vb.len() as int && q < vb.len() {
                            assert(vb[q] == views(visited@)[q]);
                        } else if q == vb.len() as int && p < vb.len() {
                            assert(vb[p] == views(visited@)[p]);
                        }
                    }
                }
                assert forall|v: Seq<u8>| views(visited@).contains(v) <==> t1.contains(v) by {
                    lemma_contains_push(vb, r@, v);
                    lemma_contains_push(t, r@, v);
                }
            }
        } else {
            proof {
                assert forall|v: Seq<u8>| views(visited@).contains(v) <==> t1.contains(v) by {
                    lemma_contains_push(t, rs[i as int], v);
                }
            }
        }
        i = i + 1;
    }
    proof {
        assert(rs.take(rs.len() as int) =~= rs);
        assert forall|v: Seq<u8>| views(visited@).contains(v) <==> within(a, rs, v, 0) by {
            lemma_within_zero(a, rs, v);
        }
        assert forall|v: Seq<u8>| views(visited@).contains(v) implies universe.contains(v) by {
            let k = choose|k: int| 0 <= k < rs.len() && rs[k] == v;
            assert(universe[k] == v);
        }
    }
    let mut depth: u32 = 0;
    loop
        invariant_except_break
            a == pair_views(arcs@),
            rs == views(roots@),
            universe == rs + edge_targets(a),
            universe.len() <= u32::MAX,
            forall|v: Seq<u8>| views(visited@).contains(v) <==> within(a, rs, v, depth as nat),
            forall|v: Seq<u8>| views(frontier@).contains(v) <==> at_distance(a, rs, v, depth as nat),
            frontier@.len() > 0,
            views(visited@).no_duplicates(),
            forall|v: Seq<u8>| views(visited@).contains(v) ==> universe.contains(v),
            depth + 1 <= visited@.len(),
        ensures
            is_max_depth(a, rs, depth as nat),
        decreases universe.len() - visited@.len(),
    {
        let ghost vb = views(visited@);
        let ghost fr = views(frontier@);
        let ghost d = depth as nat;
        assert(forall|v: Seq<u8>| vb.contains(v) <==> within(a, rs, v, d));
        let next = expand_layer(arcs, &frontier, &mut visited);
        let ghost nx = views(next@);
        proof {
            // everything first reached in d + 1 steps is in the new layer
            assert forall|y: Seq<u8>| #[trigger] at_distance(a, rs, y, d + 1) implies nx.contains(
                y,
            ) by {
                let u = lemma_within_pred(a, rs, y, d);
                assert(fr.contains(u));
                assert(views(visited@).contains(y));
                assert(!vb.contains(y));
                let k = choose|k: int| 0 <= k < views(visited@).len() && views(visited@)[k] == y;
                if k < vb.len() {
                    assert(vb[k] == y);
                }
                assert(nx[k - vb.len()] == y);
            }
        }
        if next.len() == 0 {
            proof {
                assert forall|v: Seq<u8>| #[trigger] within(a, rs, v, d + 1) implies within(
                    a,
                    rs,
                    v,
                    d,
                ) by {
                    if !within(a, rs, v, d) {
                        assert(at_distance(a, rs, v, d + 1));
                        assert(nx.contains(v));
                    }
                }
                assert forall|v: Seq<u8>, e: nat| #[trigger] within(a, rs, v, e) implies within(
                    a,
                    rs,
                    v,
                    d,
                ) by {
                    lemma_within_closed(a, rs, d, v, e);
                }
                assert(fr.contains(fr[0]));
                assert(at_distance(a, rs, fr[0], d));
            }
            break;
        }
        proof {
            assert forall|y: Seq<u8>| nx.contains(y) <==> at_distance(a, rs, y, d + 1) by {
                if nx.contains(y) {
                    let u = choose|u: Seq<u8>| fr.contains(u) && #[trigger] a.contains((u, y));
                    lemma_within_step(a, rs, u, y, d);
                }
            }
            assert forall|v: Seq<u8>| views(visited@).contains(v) <==> within(a, rs, v, d + 1) by {
                let k_any = 0int;
                if views(visited@).contains(v) {
                    let k = choose|k: int| 0 <= k < views(visited@).len() && views(visited@)[k] == v;
                    if k < vb.len() {
                        assert(vb[k] == v);
                        lemma_within_mono(a, rs, v, d, d + 1);
                    } else {
                        assert(nx[k - vb.len()] == v);
                        assert(nx.contains(v));
                        assert(at_distance(a, rs, v, d + 1));
                    }
                }
                if within(a, rs, v, d + 1) {
                    if within(a, rs, v, d) {
                        let k = choose|k: int| 0 <= k < vb.len() && vb[k] == v;
                        assert(views(visited@)[k] == v);
                    } else {
                        assert(at_distance(a, rs, v, d + 1));
                        let k = choose|k: int| 0 <= k < nx.len() && nx[k] == v;
                        assert(views(visited@)[vb.len() + k] == v);
                    }
                }
            }
            assert forall|v: Seq<u8>| views(visited@).contains(v) implies universe.contains(v) by {
                let k = choose|k: int| 0 <= k < views(visited@).len() && views(visited@)[k] == v;
                if k < vb.len() {
                    assert(vb[k] == v);
                } else {
                    assert(nx[k - vb.len()] == v);
                    assert(nx.contains(v));
                    let u = choose|u: Seq<u8>| fr.contains(u) && #[trigger] a.contains((u, v));
                    let m = choose|m: int| 0 <= m < a.len() && a[m] == (u, v);
                    assert(universe[rs.len() + m] == v);
                }
            }
            lemma_distinct_within(views(visited@), universe);
            assert(nx.contains(nx[0]));
        }
        depth = depth + 1;
        frontier = next;
    }
    depth
}

/// The greatest breadth-first depth reached from the root nodes (nodes that
/// no edge points to) along edges leaving known nodes; 0 without nodes or
/// roots.
pub fn calculate_max_depth(nodes: &[Vec<u8>], edges: &[(Vec<u8>, Vec<u8>)]) -> (r: u32)
    requires
        nodes@.len() + edges@.len() <= u32::MAX,
    ensures
        is_max_depth(
            child_arcs(views(nodes@), pair_views(edges@)),
            roots_of(views(nodes@), pair_views(edges@)),
            r as nat,
        ),
{
    let ghost ids = views(nodes@);
    let ghost pe = pair_views(edges@);
    let arcs = build_child_arcs(nodes, edges);
    let roots = find_roots(nodes, edges);
    let ghost a = pair_views(arcs@);
    let ghost rs = views(roots@);
    proof {
        reveal_with_fuel(Seq::<_>::filter, 1);
        pe.lemma_filter_len(|e: (Seq<u8>, Seq<u8>)| ids.contains(e.0));
        ids.lemma_filter_len(|n: Seq<u8>| !edge_targets(pe).contains(n));
    }
    if roots.len() == 0 {
        return 0;
    }
    layered_depth(&arcs, &roots)
}


/// The number of different buffers in `v`.
pub fn count_distinct(v: &[Vec<u8>]) -> (r: usize)
    ensures
        r as nat == views(v@).to_set().len(),
{
    let mut seen: Vec<Vec<u8>> = Vec::new();
    let mut i: usize = 0;
    proof {
        assert(views(v@.take(0)).to_set() =~= views(seen@).to_set());
    }
    while i < v.len()
        invariant
            i <= v@.len(),
            views(seen@).no_duplicates(),
            views(seen@).to_set() == views(v@.take(i as int)).to_set(),
            seen@.len() <= i,
        decreases v@.len() - i,
    {
        let ghost before = views(seen@);
        proof {
            assert(views(v@.take(i + 1)) =~= views(v@.take(i as int)).push(v@[i as int]@));
            views(v@.take(i as int)).lemma_push_to_set_commute(v@[i as int]@);
        }
        if !contains_bytes(seen.as_slice(), v[i].as_slice()) {
            let c = copy_bytes(v[i].as_slice());
            seen.push(c);
            proof {
                assert(views(seen@) =~= before.push(c@));
                before.lemma_push_to_set_commute(c@);
                assert forall|a: int, b: int|
                    0 <= a < views(seen@).len() && 0 <= b < views(seen@).len() && a != b
                    implies views(seen@)[a] != views(seen@)[b] by {
                    if a == before.len() as int {
                        assert(before.contains(views(seen@)[b]));
                    } else if b == before.len() as int {
                        assert(before.contains(views(seen@)[a]));
                    }
                }
            }
        } else {
            proof {
                assert(before.to_set().contains(v@[i as int]@));
                assert(before.to_set().insert(v@[i as int]@) =~= before.to_set());
            }
        }
        i = i + 1;
    }
    proof {
        assert(v@.take(v@.len() as int) =~= v@);
        views(seen@).unique_seq_to_set();
    }
    seen.len()
}

/// Counts and depth of a causation graph.
pub struct GraphStats {
    pub node_count: usize,
    pub edge_count: usize,
    pub root_count: usize,
    pub leaf_count: usize,
    pub max_depth: u32,
}

/// Node and edge counts, the number of different root and leaf ids, and
/// the greatest depth from the roots.
pub fn graph_stats(nodes: &[Vec<u8>], edges: &[(Vec<u8>, Vec<u8>)]) -> (r: GraphStats)
    requires
        nodes@.len() + edges@.len() <= u32::MAX,
    ensures
        r.node_count == nodes@.len(),
        r.edge_count == edges@.len(),
        r.root_count as nat == roots_of(views(nodes@), pair_views(edges@)).to_set().len(),
        r.leaf_count as nat == leaves_of(views(nodes@), pair_views(edges@)).to_set().len(),
        is_max_depth(
            child_arcs(views(nodes@), pair_views(edges@)),
            roots_of(views(nodes@), pair_views(edges@)),
            r.max_depth as nat,
        ),
{
    let roots = find_roots(nodes, edges);
    let leaves = find_leaves(nodes, edges);
    let root_count = count_distinct(roots.as_slice());
    let leaf_count = count_distinct(leaves.as_slice());
    let max_depth = calculate_max_depth(nodes, edges);
    GraphStats {
        node_count: nodes.len(),
        edge_count: edges.len(),
        root_count,
        leaf_count,
        max_depth,
    }
}

} // verus!
