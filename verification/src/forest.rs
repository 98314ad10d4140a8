use vstd::prelude::*;
use vstd::set_lib::*;
use vstd::seq_lib::{seq_to_set_is_finite, group_to_multiset_ensures, to_multiset_contains};
use crate::spanning::{
    Connection, kruskal_state, first_index, relabel, ascending, endpoints_within, spanning_selection,
    sort_by_cost, insert_by_cost, lemma_sort_members, lemma_sort_ascending, lemma_labels_len, lemma_insert_keeps,
    candidate_connections, closest_lists, closest_order, links_upto, link, link_count, lemma_candidates_are_links,
};

verus! {

/// `c` occurs in `s` at its first position.
pub proof fn lemma_first_index(s: Seq<(usize, usize)>, c: (usize, usize))
    requires
        s.contains(c),
    ensures
        0 <= first_index(s, c) < s.len(),
        s[first_index(s, c)] == c,
{
    reveal(first_index);
    let i0 = choose|i: int| 0 <= i < s.len() && s[i] == c;
    lemma_first_occurrence_exists(s, c, i0);
}

proof fn lemma_first_occurrence_exists(s: Seq<(usize, usize)>, c: (usize, usize), i: int)
    requires
        0 <= i < s.len(),
        s[i] == c,
    ensures
        exists|m: int| 0 <= m < s.len() && s[m] == c && forall|j: int| 0 <= j < m ==> s[j] != c,
    decreases i,
{
    if exists|j: int| 0 <= j < i && s[j] == c {
        let j = choose|j: int| 0 <= j < i && s[j] == c;
        lemma_first_occurrence_exists(s, c, j);
    } else {
        assert(forall|j: int| 0 <= j < i ==> s[j] != c);
    }
}

/// The position of the coordinate a connection starts at.
pub open spec fn start_node(cs: Seq<(usize, usize)>, e: Connection) -> int {
    first_index(cs, e.start)
}

/// The position of the coordinate a connection ends at.
pub open spec fn end_node(cs: Seq<(usize, usize)>, e: Connection) -> int {
    first_index(cs, e.end)
}

proof fn lemma_selection_members(cs: Seq<(usize, usize)>, es: Seq<Connection>)
    ensures
        forall|k: int| 0 <= k < kruskal_state(cs, es).1.len() ==> es.contains(#[trigger] kruskal_state(cs, es).1[k]),
        kruskal_state(cs, es).1.len() <= es.len(),
        ascending(es) ==> ascending(kruskal_state(cs, es).1),
    decreases es.len(),
{
    reveal(kruskal_state);
    if es.len() > 0 {
        let d = es.drop_last();
        lemma_selection_members(cs, d);
        let prev = kruskal_state(cs, d).1;
        let cur = kruskal_state(cs, es).1;
        assert forall|k: int| 0 <= k < cur.len() implies es.contains(#[trigger] cur[k]) by {
            if k < prev.len() {
                assert(cur[k] == prev[k]);
                let j = choose|j: int| 0 <= j < d.len() && d[j] == prev[k];
                assert(es[j] == prev[k]);
            } else {
                assert(cur[k] == es.last());
                assert(es[es.len() - 1] == es.last());
            }
        }
        if ascending(es) {
            assert(ascending(d));
            assert forall|i: int, j: int| 0 <= i < j < cur.len() implies cur[i].cost <= cur[j].cost by {
                if j < prev.len() {
                    assert(cur[i] == prev[i] && cur[j] == prev[j]);
                } else {
                    assert(cur[i] == prev[i]);
                    let t = choose|t: int| 0 <= t < d.len() && d[t] == prev[i];
                    assert(es[t] == prev[i]);
                    assert(es[es.len() - 1] == cur[j]);
                }
            }
        }
    }
}

/// Kruskal's selection keeps only connections it was given, at most as many, and lists them
/// in ascending order of cost.
pub proof fn lemma_selection_is_ascending_subset(cs: Seq<(usize, usize)>, conns: Seq<Connection>)
    ensures
        forall|k: int|
            0 <= k < spanning_selection(cs, conns).len() ==> conns.contains(
                #[trigger] spanning_selection(cs, conns)[k],
            ),
        spanning_selection(cs, conns).len() <= conns.len(),
        ascending(spanning_selection(cs, conns)),
{
    let es = sort_by_cost(conns);
    lemma_sort_members(conns);
    lemma_sort_ascending(conns);
    lemma_selection_members(cs, es);
    let sel = spanning_selection(cs, conns);
    assert forall|k: int| 0 <= k < sel.len() implies conns.contains(#[trigger] sel[k]) by {
        let j = choose|j: int| 0 <= j < es.len() && es[j] == sel[k];
        assert(conns.contains(es[j]));
    }
}

proof fn lemma_selection_spans_all(cs: Seq<(usize, usize)>, es: Seq<Connection>)
    requires
        endpoints_within(cs, es),
    ensures
        forall|k: int|
            0 <= k < es.len() ==> kruskal_state(cs, es).0[start_node(cs, #[trigger] es[k])] == kruskal_state(
                cs,
                es,
            ).0[end_node(cs, es[k])],
    decreases es.len(),
{
    reveal(kruskal_state);
    if es.len() > 0 {
        let d = es.drop_last();
        assert(endpoints_within(cs, d)) by {
            assert forall|k: int| 0 <= k < d.len() implies cs.contains(#[trigger] d[k].start) && cs.contains(
                d[k].end,
            ) by {
                assert(d[k] == es[k]);
            }
        }
        lemma_selection_spans_all(cs, d);
        lemma_labels_len(cs, d);
        let lab = kruskal_state(cs, d).0;
        let e = es.last();
        assert(e == es[es.len() - 1]);
        let a = start_node(cs, e);
        let b = end_node(cs, e);
        lemma_first_index(cs, e.start);
        lemma_first_index(cs, e.end);
        let lab1 = kruskal_state(cs, es).0;
        assert forall|k: int| 0 <= k < es.len() implies lab1[start_node(cs, #[trigger] es[k])] == lab1[end_node(
            cs,
            es[k],
        )] by {
            let x = start_node(cs, es[k]);
            let y = end_node(cs, es[k]);
            lemma_first_index(cs, es[k].start);
            lemma_first_index(cs, es[k].end);
            if k < d.len() {
                assert(es[k] == d[k]);
                assert(lab[x] == lab[y]);
            }
        }
    }
}

/// Kruskal's selection spans every connection it was given: at the end the two endpoints
/// of each lie in the same component.
proof fn lemma_selection_spans(cs: Seq<(usize, usize)>, conns: Seq<Connection>)
    requires
        endpoints_within(cs, conns),
    ensures
        forall|k: int|
            0 <= k < conns.len() ==> kruskal_state(cs, sort_by_cost(conns)).0[start_node(cs, #[trigger] conns[k])]
                == kruskal_state(cs, sort_by_cost(conns)).0[end_node(cs, conns[k])],
{
    let es = sort_by_cost(conns);
    lemma_sort_members(conns);
    assert(endpoints_within(cs, es)) by {
        assert forall|k: int| 0 <= k < es.len() implies cs.contains(#[trigger] es[k].start) && cs.contains(
            es[k].end,
        ) by {
            let j = choose|j: int| 0 <= j < conns.len() && conns[j] == es[k];
            assert(cs.contains(conns[j].start));
        }
    }
    lemma_selection_spans_all(cs, es);
    assert forall|k: int| 0 <= k < conns.len() implies #[trigger] kruskal_state(cs, es).0[start_node(
        cs,
        conns[k],
    )] == kruskal_state(cs, es).0[end_node(cs, conns[k])] by {
        lemma_sort_permutes(conns, k);
        let j = choose|j: int| 0 <= j < es.len() && es[j] == conns[k];
        assert(kruskal_state(cs, es).0[start_node(cs, es[j])] == kruskal_state(cs, es).0[end_node(cs, es[j])]);
    }
}

proof fn lemma_sort_permutes(conns: Seq<Connection>, k: int)
    requires
        0 <= k < conns.len(),
    ensures
        sort_by_cost(conns).contains(conns[k]),
{
    lemma_sort_contains(conns, conns[k]);
    assert(conns.contains(conns[k]));
}

proof fn lemma_sort_contains(s: Seq<Connection>, x: Connection)
    ensures
        s.contains(x) ==> sort_by_cost(s).contains(x),
    decreases s.len(),
{
    if s.len() > 0 && s.contains(x) {
        let d = s.drop_last();
        lemma_sort_contains(d, x);
        lemma_insert_keeps(sort_by_cost(d), s.last(), x);
        if x != s.last() {
            let j = choose|j: int| 0 <= j < s.len() && s[j] == x;
            assert(j < d.len());
            assert(d[j] == x);
        }
    }
}

proof fn lemma_component_count(cs: Seq<(usize, usize)>, es: Seq<Connection>)
    requires
        endpoints_within(cs, es),
    ensures
        kruskal_state(cs, es).1.len() + kruskal_state(cs, es).0.to_set().len() == cs.len(),
    decreases es.len(),
{
    reveal(kruskal_state);
    seq_to_set_is_finite(kruskal_state(cs, es).0);
    if es.len() == 0 {
        let lab = kruskal_state(cs, es).0;
        lemma_int_range(0, cs.len() as int);
        assert(lab.to_set() =~= set_int_range(0, cs.len() as int)) by {
            assert forall|x: int| set_int_range(0, cs.len() as int).contains(x) implies lab.to_set().contains(x) by {
                assert(lab[x] == x);
            }
        }
    } else {
        let d = es.drop_last();
        assert(endpoints_within(cs, d)) by {
            assert forall|k: int| 0 <= k < d.len() implies cs.contains(#[trigger] d[k].start) && cs.contains(
                d[k].end,
            ) by {
                assert(d[k] == es[k]);
            }
        }
        lemma_component_count(cs, d);
        lemma_labels_len(cs, d);
        let lab = kruskal_state(cs, d).0;
        let e = es.last();
        assert(e == es[es.len() - 1]);
        lemma_first_index(cs, e.start);
        lemma_first_index(cs, e.end);
        let a = first_index(cs, e.start);
        let b = first_index(cs, e.end);
        seq_to_set_is_finite(lab);
        if lab[a] != lab[b] {
            let lab1 = relabel(lab, lab[a], lab[b]);
            assert(lab1.to_set() =~= lab.to_set().remove(lab[a])) by {
                assert forall|x: int| lab.to_set().remove(lab[a]).contains(x) implies lab1.to_set().contains(x) by {
                    let j = choose|j: int| 0 <= j < lab.len() && lab[j] == x;
                    assert(lab1[j] == x);
                }
                assert forall|x: int| lab1.to_set().contains(x) implies lab.to_set().remove(lab[a]).contains(x) by {
                    let j = choose|j: int| 0 <= j < lab1.len() && lab1[j] == x;
                    if lab[j] == lab[a] {
                        assert(lab[b] == x);
                    } else {
                        assert(lab[j] == x);
                    }
                }
            }
            assert(lab.to_set().contains(lab[a]));
        }
    }
}

/// Kruskal's selection is a forest: the kept connections and the components they leave
/// add up to the number of coordinates, so fewer connections than coordinates are kept.
pub proof fn lemma_selection_is_forest(cs: Seq<(usize, usize)>, conns: Seq<Connection>)
    requires
        endpoints_within(cs, conns),
    ensures
        spanning_selection(cs, conns).len() + kruskal_state(cs, sort_by_cost(conns)).0.to_set().len() == cs.len(),
        cs.len() > 0 ==> spanning_selection(cs, conns).len() < cs.len(),
{
    let es = sort_by_cost(conns);
    lemma_sort_members(conns);
    assert(endpoints_within(cs, es)) by {
        assert forall|k: int| 0 <= k < es.len() implies cs.contains(#[trigger] es[k].start) && cs.contains(
            es[k].end,
        ) by {
            let j = choose|j: int| 0 <= j < conns.len() && conns[j] == es[k];
            assert(cs.contains(conns[j].start));
        }
    }
    lemma_component_count(cs, es);
    if cs.len() > 0 {
        lemma_labels_len(cs, es);
        let lab = kruskal_state(cs, es).0;
        seq_to_set_is_finite(lab);
        assert(lab.to_set().contains(lab[0]));
    }
}

/// Connection `c` joins nodes `u` and `v`, either way round, and costs at most `bound`.
pub open spec fn joins(cs: Seq<(usize, usize)>, c: Connection, u: int, v: int, bound: int) -> bool {
    &&& c.cost <= bound
    &&& {
        ||| (start_node(cs, c) == u && end_node(cs, c) == v)
        ||| (start_node(cs, c) == v && end_node(cs, c) == u)
    }
}

/// Some connection of `edges` costing at most `bound` joins `u` and `v`.
pub open spec fn step(cs: Seq<(usize, usize)>, edges: Seq<Connection>, bound: int, u: int, v: int) -> bool {
    exists|c: Connection| #![trigger edges.contains(c)] edges.contains(c) && joins(cs, c, u, v, bound)
}

/// `p` is a walk along connections of `edges` that cost at most `bound`.
pub open spec fn is_walk(cs: Seq<(usize, usize)>, edges: Seq<Connection>, bound: int, p: Seq<int>) -> bool {
    &&& p.len() > 0
    &&& forall|t: int| #![trigger p[t]] 0 <= t < p.len() - 1 ==> step(cs, edges, bound, p[t], p[t + 1])
}

/// Nodes `u` and `v` are linked by a walk along connections of `edges` costing at most `bound`.
pub open spec fn linked(cs: Seq<(usize, usize)>, edges: Seq<Connection>, bound: int, u: int, v: int) -> bool {
    exists|p: Seq<int>| #[trigger] is_walk(cs, edges, bound, p) && p[0] == u && p.last() == v
}

proof fn lemma_linked_refl(cs: Seq<(usize, usize)>, edges: Seq<Connection>, bound: int, u: int)
    ensures
        linked(cs, edges, bound, u, u),
{
    let p = seq![u];
    assert(is_walk(cs, edges, bound, p));
}

proof fn lemma_linked_edge(cs: Seq<(usize, usize)>, edges: Seq<Connection>, bound: int, c: Connection)
    requires
        edges.contains(c),
        c.cost <= bound,
    ensures
        linked(cs, edges, bound, start_node(cs, c), end_node(cs, c)),
        linked(cs, edges, bound, end_node(cs, c), start_node(cs, c)),
{
    let u = start_node(cs, c);
    let v = end_node(cs, c);
    let p = seq![u, v];
    let q = seq![v, u];
    assert(joins(cs, c, u, v, bound));
    assert(joins(cs, c, v, u, bound));
    assert(is_walk(cs, edges, bound, p)) by {
        assert forall|t: int| #![trigger p[t]] 0 <= t < p.len() - 1 implies step(cs, edges, bound, p[t], p[t + 1]) by {
            assert(p[0] == u && p[1] == v);
        }
    }
    assert(is_walk(cs, edges, bound, q)) by {
        assert forall|t: int| #![trigger q[t]] 0 <= t < q.len() - 1 implies step(cs, edges, bound, q[t], q[t + 1]) by {
            assert(q[0] == v && q[1] == u);
        }
    }
    assert(p.last() == v);
    assert(q.last() == u);
}

proof fn lemma_linked_trans(cs: Seq<(usize, usize)>, edges: Seq<Connection>, bound: int, u: int, v: int, w: int)
    requires
        linked(cs, edges, bound, u, v),
        linked(cs, edges, bound, v, w),
    ensures
        linked(cs, edges, bound, u, w),
{
    let p = choose|p: Seq<int>| #[trigger] is_walk(cs, edges, bound, p) && p[0] == u && p.last() == v;
    let q = choose|q: Seq<int>| #[trigger] is_walk(cs, edges, bound, q) && q[0] == v && q.last() == w;
    let r = p + q.drop_first();
    assert(is_walk(cs, edges, bound, r)) by {
        assert forall|t: int| #![trigger r[t]] 0 <= t < r.len() - 1 implies step(cs, edges, bound, r[t], r[t + 1]) by {
            if t < p.len() - 1 {
                assert(r[t] == p[t] && r[t + 1] == p[t + 1]);
            } else if t == p.len() - 1 {
                assert(r[t] == q[0] && r[t + 1] == q[1]);
                assert(step(cs, edges, bound, q[0], q[1]));
            } else {
                let s = t - p.len() + 1;
                assert(r[t] == q[s] && r[t + 1] == q[s + 1]);
                assert(step(cs, edges, bound, q[s], q[s + 1]));
            }
        }
    }
    if q.len() == 1 {
        assert(r =~= p);
    } else {
        assert(r.last() == q.last());
    }
    assert(r[0] == u);
}

proof fn lemma_linked_sym(cs: Seq<(usize, usize)>, edges: Seq<Connection>, bound: int, u: int, v: int)
    requires
        linked(cs, edges, bound, u, v),
    ensures
        linked(cs, edges, bound, v, u),
{
    let p = choose|p: Seq<int>| #[trigger] is_walk(cs, edges, bound, p) && p[0] == u && p.last() == v;
    let r = p.reverse();
    assert(is_walk(cs, edges, bound, r)) by {
        assert forall|t: int| #![trigger r[t]] 0 <= t < r.len() - 1 implies step(cs, edges, bound, r[t], r[t + 1]) by {
            let s = p.len() - 2 - t;
            assert(r[t] == p[s + 1] && r[t + 1] == p[s]);
            assert(step(cs, edges, bound, p[s], p[s + 1]));
            let c = choose|c: Connection| #![trigger edges.contains(c)] edges.contains(c) && joins(cs, c, p[s], p[s + 1], bound);
            assert(joins(cs, c, p[s + 1], p[s], bound));
        }
    }
    assert(r[0] == v);
    assert(r.last() == u);
}

proof fn lemma_linked_mono(
    cs: Seq<(usize, usize)>,
    e1: Seq<Connection>,
    b1: int,
    e2: Seq<Connection>,
    b2: int,
    u: int,
    v: int,
)
    requires
        linked(cs, e1, b1, u, v),
        forall|c: Connection| #[trigger] e1.contains(c) && c.cost <= b1 ==> e2.contains(c) && c.cost <= b2,
    ensures
        linked(cs, e2, b2, u, v),
{
    let p = choose|p: Seq<int>| #[trigger] is_walk(cs, e1, b1, p) && p[0] == u && p.last() == v;
    assert(is_walk(cs, e2, b2, p)) by {
        assert forall|t: int| #![trigger p[t]] 0 <= t < p.len() - 1 implies step(cs, e2, b2, p[t], p[t + 1]) by {
            assert(step(cs, e1, b1, p[t], p[t + 1]));
            let c = choose|c: Connection| #![trigger e1.contains(c)] e1.contains(c) && joins(cs, c, p[t], p[t + 1], b1);
            assert(e2.contains(c));
        }
    }
}

/// Within each component of Kruskal's labels, all nodes are linked by kept connections.
proof fn lemma_components_linked(cs: Seq<(usize, usize)>, es: Seq<Connection>)
    requires
        endpoints_within(cs, es),
    ensures
        forall|u: int, v: int|
            0 <= u < cs.len() && 0 <= v < cs.len() && #[trigger] kruskal_state(cs, es).0[u] == #[trigger] kruskal_state(
                cs,
                es,
            ).0[v] ==> linked(cs, kruskal_state(cs, es).1, usize::MAX as int, u, v),
    decreases es.len(),
{
    reveal(kruskal_state);
    let big = usize::MAX as int;
    if es.len() == 0 {
        assert forall|u: int, v: int|
            0 <= u < cs.len() && 0 <= v < cs.len() && #[trigger] kruskal_state(cs, es).0[u] == #[trigger] kruskal_state(
                cs,
                es,
            ).0[v] implies linked(cs, kruskal_state(cs, es).1, big, u, v) by {
            lemma_linked_refl(cs, kruskal_state(cs, es).1, big, u);
        }
    } else {
        let d = es.drop_last();
        assert(endpoints_within(cs, d)) by {
            assert forall|k: int| 0 <= k < d.len() implies cs.contains(#[trigger] d[k].start) && cs.contains(
                d[k].end,
            ) by {
                assert(d[k] == es[k]);
            }
        }
        lemma_components_linked(cs, d);
        lemma_labels_len(cs, d);
        let lab = kruskal_state(cs, d).0;
        let sel = kruskal_state(cs, d).1;
        let e = es.last();
        assert(e == es[es.len() - 1]);
        lemma_first_index(cs, e.start);
        lemma_first_index(cs, e.end);
        let a = first_index(cs, e.start);
        let b = first_index(cs, e.end);
        if lab[a] != lab[b] {
            let lab1 = relabel(lab, lab[a], lab[b]);
            let sel1 = sel.push(e);
            assert(kruskal_state(cs, es).0 == lab1);
            assert(kruskal_state(cs, es).1 == sel1);
            assert forall|c: Connection| #[trigger] sel.contains(c) && c.cost <= big implies sel1.contains(c) && c.cost
                <= big by {
                let j = choose|j: int| 0 <= j < sel.len() && sel[j] == c;
                assert(sel1[j] == c);
            }
            assert(sel1.contains(e)) by {
                assert(sel1[sel.len() as int] == e);
            }
            lemma_linked_edge(cs, sel1, big, e);
            assert forall|u: int, v: int|
                0 <= u < cs.len() && 0 <= v < cs.len() && #[trigger] lab1[u] == #[trigger] lab1[v] implies linked(
                cs,
                sel1,
                big,
                u,
                v,
            ) by {
                if lab[u] == lab[v] {
                    lemma_linked_mono(cs, sel, big, sel1, big, u, v);
                } else if lab[u] == lab[a] {
                    assert(lab[v] == lab[b]);
                    lemma_linked_mono(cs, sel, big, sel1, big, u, a);
                    lemma_linked_mono(cs, sel, big, sel1, big, b, v);
                    lemma_linked_trans(cs, sel1, big, u, a, b);
                    lemma_linked_trans(cs, sel1, big, u, b, v);
                } else {
                    assert(lab[u] == lab[b] && lab[v] == lab[a]);
                    lemma_linked_mono(cs, sel, big, sel1, big, u, b);
                    lemma_linked_mono(cs, sel, big, sel1, big, a, v);
                    lemma_linked_trans(cs, sel1, big, u, b, a);
                    lemma_linked_trans(cs, sel1, big, u, a, v);
                }
            }
        }
    }
}

proof fn lemma_selection_grows(cs: Seq<(usize, usize)>, es: Seq<Connection>, k: int)
    requires
        0 <= k <= es.len(),
    ensures
        forall|c: Connection|
            #[trigger] kruskal_state(cs, es.take(k)).1.contains(c) ==> kruskal_state(cs, es).1.contains(c),
    decreases es.len(),
{
    reveal(kruskal_state);
    if k == es.len() {
        assert(es.take(k) =~= es);
    } else {
        let d = es.drop_last();
        assert(d.take(k) =~= es.take(k));
        lemma_selection_grows(cs, d, k);
        let prev = kruskal_state(cs, d).1;
        let cur = kruskal_state(cs, es).1;
        assert forall|c: Connection| #[trigger] prev.contains(c) implies cur.contains(c) by {
            let j = choose|j: int| 0 <= j < prev.len() && prev[j] == c;
            assert(cur[j] == c);
        }
    }
}

proof fn lemma_sorted_cycle_property(cs: Seq<(usize, usize)>, es: Seq<Connection>, k: int)
    requires
        endpoints_within(cs, es),
        ascending(es),
        0 <= k < es.len(),
    ensures
        linked(cs, kruskal_state(cs, es).1, es[k].cost as int, start_node(cs, es[k]), end_node(cs, es[k])),
{
    let e = es[k];
    let bound = e.cost as int;
    let big = usize::MAX as int;
    let fin = kruskal_state(cs, es).1;
    let pre = es.take(k);
    let sel_k = kruskal_state(cs, pre).1;
    lemma_first_index(cs, e.start);
    lemma_first_index(cs, e.end);
    let a = start_node(cs, e);
    let b = end_node(cs, e);
    lemma_selection_grows(cs, es, k + 1);
    if fin.contains(e) {
        lemma_linked_edge(cs, fin, bound, e);
    } else {
        reveal(kruskal_state);
        assert(es.take(k + 1).drop_last() =~= pre);
        assert(es.take(k + 1).last() == e);
        lemma_labels_len(cs, pre);
        let lab = kruskal_state(cs, pre).0;
        if lab[a] != lab[b] {
            let next = kruskal_state(cs, es.take(k + 1)).1;
            assert(next == sel_k.push(e));
            assert(next[sel_k.len() as int] == e);
            assert(next.contains(e));
            assert(false);
        }
        assert(endpoints_within(cs, pre)) by {
            assert forall|t: int| 0 <= t < pre.len() implies cs.contains(#[trigger] pre[t].start) && cs.contains(
                pre[t].end,
            ) by {
                assert(pre[t] == es[t]);
            }
        }
        lemma_components_linked(cs, pre);
        assert(linked(cs, sel_k, big, a, b));
        lemma_selection_members(cs, pre);
        lemma_selection_grows(cs, es, k);
        assert forall|c: Connection| #[trigger] sel_k.contains(c) && c.cost <= big implies fin.contains(c)
            && c.cost <= bound by {
            let j = choose|j: int| 0 <= j < sel_k.len() && sel_k[j] == c;
            assert(pre.contains(sel_k[j]));
            let t = choose|t: int| 0 <= t < pre.len() && pre[t] == c;
            assert(es[t] == c);
        }
        lemma_linked_mono(cs, sel_k, big, fin, bound, a, b);
    }
}

/// Kruskal's selection is a minimum spanning forest: the two endpoints of every given
/// connection are linked by kept connections none of which costs more than it.  So the
/// kept connections span every given one, and no given connection could replace a kept
/// one on a cycle to lower the total cost.
pub proof fn lemma_cycle_property(cs: Seq<(usize, usize)>, conns: Seq<Connection>)
    requires
        endpoints_within(cs, conns),
    ensures
        forall|k: int|
            0 <= k < conns.len() ==> linked(
                cs,
                spanning_selection(cs, conns),
                (#[trigger] conns[k]).cost as int,
                start_node(cs, conns[k]),
                end_node(cs, conns[k]),
            ),
{
    let es = sort_by_cost(conns);
    lemma_sort_members(conns);
    lemma_sort_ascending(conns);
    assert(endpoints_within(cs, es)) by {
        assert forall|k: int| 0 <= k < es.len() implies cs.contains(#[trigger] es[k].start) && cs.contains(
            es[k].end,
        ) by {
            let j = choose|j: int| 0 <= j < conns.len() && conns[j] == es[k];
            assert(cs.contains(conns[j].start));
        }
    }
    assert forall|k: int| 0 <= k < conns.len() implies linked(
        cs,
        spanning_selection(cs, conns),
        (#[trigger] conns[k]).cost as int,
        start_node(cs, conns[k]),
        end_node(cs, conns[k]),
    ) by {
        lemma_sort_permutes(conns, k);
        let j = choose|j: int| 0 <= j < es.len() && es[j] == conns[k];
        lemma_sorted_cycle_property(cs, es, j);
    }
}

/// Among `conns` is a connection from coordinate `at` to a later one.
pub open spec fn links_forward(cs: Seq<(usize, usize)>, conns: Seq<Connection>, at: int) -> bool {
    exists|k: int, b: int|
        #![trigger conns[k], link(cs, at, b)]
        0 <= k < conns.len() && at < b < cs.len() && conns[k] == link(cs, at, b)
}

proof fn lemma_links_reach(cs: Seq<(usize, usize)>, lists: Seq<Seq<usize>>, m: nat)
    requires
        closest_lists(cs, lists),
        m + 1 <= cs.len(),
        cs.len() <= usize::MAX,
    ensures
        forall|at: int| 0 <= at < m ==> #[trigger] links_forward(cs, links_upto(cs, lists, m).1, at),
    decreases m,
{
    if m > 0 {
        lemma_links_reach(cs, lists, (m - 1) as nat);
        let at0 = m - 1;
        let prev = links_upto(cs, lists, (m - 1) as nat);
        let cur = links_upto(cs, lists, m);
        let list = lists[at0];
        assert(closest_order(cs, at0, list));
        assert(list.contains(m as usize));
        assert(list.len() > 0);
        let cnt = link_count(prev.0[at0], list.len() as int);
        assert(cnt >= 1);
        assert forall|at: int| 0 <= at < m implies #[trigger] links_forward(cs, cur.1, at) by {
            if at < at0 {
                assert(links_forward(cs, prev.1, at));
                let (k, b) = choose|k: int, b: int|
                    #![trigger prev.1[k], link(cs, at, b)]
                    0 <= k < prev.1.len() && at < b < cs.len() && prev.1[k] == link(cs, at, b);
                assert(cur.1[k] == prev.1[k]);
            } else {
                let k = prev.1.len() as int;
                let b = list[0] as int;
                assert(cur.1[k] == link(cs, at, b));
                assert(at < b < cs.len());
            }
        }
    }
}

proof fn lemma_all_joined(lab: Seq<int>, n: int, at: int)
    requires
        0 <= at < n,
        lab.len() == n,
        forall|x: int| #![trigger lab[x]] 0 <= x < n - 1 ==> exists|y: int| x < y < n && #[trigger] lab[y] == lab[x],
    ensures
        lab[at] == lab[n - 1],
    decreases n - at,
{
    if at < n - 1 {
        let y = choose|y: int| at < y < n && #[trigger] lab[y] == lab[at];
        lemma_all_joined(lab, n, y);
    }
}

/// For distinct coordinates, the planned network is a spanning tree: every coordinate
/// but the last links to some later one, so all are joined, and Kruskal's selection
/// keeps exactly one connection fewer than there are coordinates.
pub proof fn lemma_network_is_spanning_tree(cs: Seq<(usize, usize)>, lists: Seq<Seq<usize>>)
    requires
        closest_lists(cs, lists),
        cs.no_duplicates(),
        0 < cs.len() <= usize::MAX,
    ensures
        spanning_selection(cs, candidate_connections(cs, lists)).len() == cs.len() - 1,
{
    let n = cs.len() as int;
    let conns = candidate_connections(cs, lists);
    lemma_candidates_are_links(cs, lists);
    lemma_selection_spans(cs, conns);
    lemma_links_reach(cs, lists, (n - 1) as nat);
    let es = sort_by_cost(conns);
    lemma_labels_len(cs, es);
    let lab = kruskal_state(cs, es).0;
    assert forall|x: int| #![trigger lab[x]] 0 <= x < n - 1 implies exists|y: int| x < y < n && #[trigger] lab[y] == lab[x] by {
        assert(links_forward(cs, conns, x));
        let (k, b) = choose|k: int, b: int|
            #![trigger conns[k], link(cs, x, b)]
            0 <= k < conns.len() && x < b < cs.len() && conns[k] == link(cs, x, b);
        lemma_first_index(cs, cs[x]);
        lemma_first_index(cs, cs[b]);
        assert(start_node(cs, conns[k]) == x);
        assert(end_node(cs, conns[k]) == b);
        assert(lab[b] == lab[x]);
    }
    assert(lab.to_set() =~= set![lab[n - 1]]) by {
        assert forall|v: int| lab.to_set().contains(v) implies v == lab[n - 1] by {
            let j = choose|j: int| 0 <= j < lab.len() && lab[j] == v;
            lemma_all_joined(lab, n, j);
        }
        assert(lab.to_set().contains(lab[n - 1]));
    }
    lemma_selection_is_forest(cs, conns);
}

proof fn lemma_insert_multiset(sorted: Seq<Connection>, e: Connection)
    ensures
        insert_by_cost(sorted, e).to_multiset() == sorted.to_multiset().insert(e),
    decreases sorted.len(),
{
    broadcast use group_to_multiset_ensures;

    if sorted.len() == 0 {
        assert(seq![e] =~= sorted.push(e));
    } else if sorted.last().cost > e.cost {
        let d = sorted.drop_last();
        lemma_insert_multiset(d, e);
        assert(d.push(sorted.last()) =~= sorted);
        assert(insert_by_cost(sorted, e).to_multiset() =~= sorted.to_multiset().insert(e));
    }
}

/// Sorting rearranges the connections: it keeps each as often as it occurs.
pub proof fn lemma_sort_permutes_multiset(s: Seq<Connection>)
    ensures
        sort_by_cost(s).to_multiset() == s.to_multiset(),
    decreases s.len(),
{
    broadcast use group_to_multiset_ensures;

    if s.len() == 0 {
        assert(sort_by_cost(s) =~= s);
    } else {
        let d = s.drop_last();
        lemma_sort_permutes_multiset(d);
        lemma_insert_multiset(sort_by_cost(d), s.last());
        assert(d.push(s.last()) =~= s);
    }
}

/// No two connections cost the same.
pub open spec fn distinct_costs(s: Seq<Connection>) -> bool {
    forall|i: int, j: int| 0 <= i < j < s.len() ==> s[i].cost != s[j].cost
}

proof fn lemma_distinct_costs_no_duplicates(s: Seq<Connection>)
    requires
        distinct_costs(s),
    ensures
        s.no_duplicates(),
        forall|x: Connection, y: Connection| s.contains(x) && s.contains(y) && x.cost == y.cost ==> x == y,
{
    assert forall|x: Connection, y: Connection| s.contains(x) && s.contains(y) && x.cost == y.cost implies x
        == y by {
        let i = choose|i: int| 0 <= i < s.len() && s[i] == x;
        let j = choose|j: int| 0 <= j < s.len() && s[j] == y;
        if i < j {
            assert(s[i].cost != s[j].cost);
        } else if j < i {
            assert(s[j].cost != s[i].cost);
        }
    }
}

proof fn lemma_same_multiset_no_duplicates(a: Seq<Connection>, b: Seq<Connection>)
    requires
        a.no_duplicates(),
        a.to_multiset() == b.to_multiset(),
    ensures
        b.no_duplicates(),
        forall|x: Connection| b.contains(x) <==> a.contains(x),
{
    broadcast use group_to_multiset_ensures;

    a.lemma_multiset_has_no_duplicates();
    b.lemma_multiset_has_no_duplicates_conv();
    assert forall|x: Connection| b.contains(x) <==> a.contains(x) by {
        to_multiset_contains(a, x);
        to_multiset_contains(b, x);
        assert(a.to_multiset().count(x) == b.to_multiset().count(x));
    }
}

proof fn lemma_sorted_unique_upto(a: Seq<Connection>, b: Seq<Connection>, i: int)
    requires
        ascending(a),
        ascending(b),
        a.no_duplicates(),
        b.no_duplicates(),
        a.len() == b.len(),
        forall|x: Connection| #[trigger] b.contains(x) <==> a.contains(x),
        forall|x: Connection, y: Connection| a.contains(x) && a.contains(y) && x.cost == y.cost ==> x == y,
        0 <= i < a.len(),
    ensures
        forall|j: int| 0 <= j <= i ==> a[j] == b[j],
    decreases i,
{
    if i > 0 {
        lemma_sorted_unique_upto(a, b, i - 1);
    }
    assert(a.contains(a[i]));
    assert(b.contains(a[i]));
    let k = choose|k: int| 0 <= k < b.len() && b[k] == a[i];
    if k < i {
        assert(a[k] == b[k]);
    }
    assert(b.contains(b[i]));
    assert(a.contains(b[i]));
    let m = choose|m: int| 0 <= m < a.len() && a[m] == b[i];
    if m < i {
        assert(a[m] == b[m]);
    }
    assert(a[i].cost <= b[i].cost);
    assert(b[i].cost <= a[i].cost);
}

/// When no two connections cost the same, Kruskal's selection does not depend on the
/// order in which the connections are given: the minimum spanning forest is unique.
pub proof fn lemma_selection_ignores_order(cs: Seq<(usize, usize)>, c1: Seq<Connection>, c2: Seq<Connection>)
    requires
        c2.to_multiset() == c1.to_multiset(),
        distinct_costs(c1),
    ensures
        spanning_selection(cs, c1) == spanning_selection(cs, c2),
{
    broadcast use group_to_multiset_ensures;

    let a = sort_by_cost(c1);
    let b = sort_by_cost(c2);
    lemma_sort_permutes_multiset(c1);
    lemma_sort_permutes_multiset(c2);
    lemma_sort_ascending(c1);
    lemma_sort_ascending(c2);
    lemma_distinct_costs_no_duplicates(c1);
    lemma_same_multiset_no_duplicates(c1, a);
    lemma_same_multiset_no_duplicates(c1, b);
    assert forall|x: Connection, y: Connection| a.contains(x) && a.contains(y) && x.cost == y.cost implies x
        == y by {
        assert(c1.contains(x) && c1.contains(y));
    }
    assert(a.len() == b.len()) by {
        assert(a.to_multiset().len() == b.to_multiset().len());
    }
    if a.len() > 0 {
        lemma_sorted_unique_upto(a, b, a.len() - 1);
    }
    assert(a =~= b);
}

} // verus!
