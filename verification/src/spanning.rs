use vstd::prelude::*;
use crate::queue::{queued, queue_new, queue_push, queue_into_sorted_vec};
use crate::merge_find::{MergeFindSet, lemma_union_merges_only, lemma_find_idempotent, valid_reps, union_reps};

verus! {

/// A candidate road between two grid cells, with its cost.
#[derive(Debug, PartialEq, Eq, Hash, Clone, Copy)]
pub struct Connection {
    pub cost: usize,
    pub start: (usize, usize),
    pub end: (usize, usize),
}

impl Connection {
    /// The cell the connection starts at.
    pub fn start_as_coordinate(&self) -> (c: (usize, usize))
        ensures
            c == self.start,
    {
        self.start
    }

    /// The cell the connection ends at.
    pub fn end_as_coordinate(&self) -> (c: (usize, usize))
        ensures
            c == self.end,
    {
        self.end
    }
}

/// `|a - b|` on naturals.
pub open spec fn gap(a: usize, b: usize) -> int {
    if a >= b {
        a - b
    } else {
        b - a
    }
}

/// Manhattan distance between two grid cells.
pub open spec fn manhattan(a: (usize, usize), b: (usize, usize)) -> int {
    gap(a.0, b.0) + gap(a.1, b.1)
}

/// Manhattan distance between two cells.
pub fn dist(t1: (usize, usize), t2: (usize, usize)) -> (d: usize)
    requires
        manhattan(t1, t2) <= usize::MAX,
    ensures
        d == manhattan(t1, t2),
{
    let dr = if t1.0 >= t2.0 {
        t1.0 - t2.0
    } else {
        t2.0 - t1.0
    };
    let dc = if t1.1 >= t2.1 {
        t1.1 - t2.1
    } else {
        t2.1 - t1.1
    };
    dr + dc
}

/// The first position at which `c` occurs in `s`.
#[verifier::opaque]
pub open spec fn first_index(s: Seq<(usize, usize)>, c: (usize, usize)) -> int {
    choose|i: int| 0 <= i < s.len() && s[i] == c && forall|j: int| 0 <= j < i ==> s[j] != c
}

/// Finds the first position of `c` in `coordinates`.
pub fn position_of(coordinates: &Vec<(usize, usize)>, c: (usize, usize)) -> (i: usize)
    requires
        coordinates@.contains(c),
    ensures
        i == first_index(coordinates@, c),
        i < coordinates@.len(),
        coordinates@[i as int] == c,
{
    let mut k: usize = 0;
    while k < coordinates.len()
        invariant
            k <= coordinates@.len(),
            coordinates@.contains(c),
            forall|j: int| 0 <= j < k ==> coordinates@[j] != c,
        decreases coordinates@.len() - k,
    {
        let here = coordinates[k];
        if here.0 == c.0 && here.1 == c.1 {
            let ghost s = coordinates@;
            assert(s[k as int] == c);
            let ghost f = first_index(s, c);
            assert(f == k) by {
                reveal(first_index);
                assert(0 <= f < s.len() && s[f] == c && forall|j: int| 0 <= j < f ==> s[j] != c);
                if f < k {
                } else if f > k {
                    assert(s[k as int] != c);
                }
            }
            return k;
        }
        k = k + 1;
    }
    let ghost j = choose|j: int| 0 <= j < coordinates@.len() && coordinates@[j] == c;
    assert(coordinates@[j] == c);
    0
}

/// `e` inserted into `sorted` right after the last connection that costs no more than it.
pub open spec fn insert_by_cost(sorted: Seq<Connection>, e: Connection) -> Seq<Connection>
    decreases sorted.len(),
{
    if sorted.len() == 0 {
        seq![e]
    } else if sorted.last().cost <= e.cost {
        sorted.push(e)
    } else {
        insert_by_cost(sorted.drop_last(), e).push(sorted.last())
    }
}

/// The connections stably sorted by ascending cost.
pub open spec fn sort_by_cost(s: Seq<Connection>) -> Seq<Connection>
    decreases s.len(),
{
    if s.len() == 0 {
        seq![]
    } else {
        insert_by_cost(sort_by_cost(s.drop_last()), s.last())
    }
}

proof fn lemma_insert_at(sorted: Seq<Connection>, e: Connection, j: int)
    requires
        0 <= j <= sorted.len(),
        forall|k: int| j <= k < sorted.len() ==> sorted[k].cost > e.cost,
        j == 0 || sorted[j - 1].cost <= e.cost,
    ensures
        insert_by_cost(sorted, e) == sorted.insert(j, e),
    decreases sorted.len(),
{
    if sorted.len() == 0 {
        assert(sorted.insert(j, e) =~= seq![e]);
    } else if sorted.last().cost <= e.cost {
        assert(j == sorted.len());
        assert(sorted.insert(j, e) =~= sorted.push(e));
    } else {
        let d = sorted.drop_last();
        lemma_insert_at(d, e, j);
        assert(d.insert(j, e).push(sorted.last()) =~= sorted.insert(j, e));
    }
}


/// Holds of connections that cost exactly `c`.
pub open spec fn costs(c: usize) -> spec_fn(Connection) -> bool {
    |x: Connection| x.cost == c
}

/// Connections in ascending order of cost.
pub open spec fn ascending(s: Seq<Connection>) -> bool {
    forall|i: int, j: int| 0 <= i < j < s.len() ==> s[i].cost <= s[j].cost
}

proof fn lemma_insert_members(sorted: Seq<Connection>, e: Connection)
    ensures
        insert_by_cost(sorted, e).len() == sorted.len() + 1,
        forall|k: int|
            0 <= k < sorted.len() + 1 ==> #[trigger] insert_by_cost(sorted, e)[k] == e || sorted.contains(
                insert_by_cost(sorted, e)[k],
            ),
    decreases sorted.len(),
{
    if sorted.len() > 0 && sorted.last().cost > e.cost {
        let d = sorted.drop_last();
        lemma_insert_members(d, e);
        assert forall|k: int| 0 <= k < sorted.len() + 1 implies #[trigger] insert_by_cost(sorted, e)[k] == e
            || sorted.contains(insert_by_cost(sorted, e)[k]) by {
            if k < sorted.len() {
                let x = insert_by_cost(d, e)[k];
                if x != e {
                    let i = choose|i: int| 0 <= i < d.len() && d[i] == x;
                    assert(sorted[i] == x);
                }
            } else {
                assert(sorted[sorted.len() - 1] == sorted.last());
            }
        }
    } else if sorted.len() > 0 {
        assert forall|k: int| 0 <= k < sorted.len() + 1 implies #[trigger] insert_by_cost(sorted, e)[k] == e
            || sorted.contains(insert_by_cost(sorted, e)[k]) by {
            if k < sorted.len() {
                assert(sorted[k] == insert_by_cost(sorted, e)[k]);
            }
        }
    }
}

/// Inserting keeps what was there, and adds the inserted connection.
pub proof fn lemma_insert_keeps(sorted: Seq<Connection>, e: Connection, x: Connection)
    ensures
        sorted.contains(x) || x == e ==> insert_by_cost(sorted, e).contains(x),
    decreases sorted.len(),
{
    let r = insert_by_cost(sorted, e);
    if sorted.len() == 0 {
        if x == e {
            assert(r[0] == e);
        }
    } else if sorted.last().cost <= e.cost {
        if x == e {
            assert(r[sorted.len() as int] == e);
        } else if sorted.contains(x) {
            let j = choose|j: int| 0 <= j < sorted.len() && sorted[j] == x;
            assert(r[j] == x);
        }
    } else {
        let d = sorted.drop_last();
        lemma_insert_keeps(d, e, x);
        let rd = insert_by_cost(d, e);
        if x == sorted.last() {
            assert(r[rd.len() as int] == x);
        } else if sorted.contains(x) || x == e {
            if sorted.contains(x) {
                let j = choose|j: int| 0 <= j < sorted.len() && sorted[j] == x;
                assert(j < d.len() && d[j] == x);
            }
            let j = choose|j: int| 0 <= j < rd.len() && rd[j] == x;
            assert(r[j] == x);
        }
    }
}

/// Sorting keeps the number of connections and introduces none.
pub proof fn lemma_sort_members(s: Seq<Connection>)
    ensures
        sort_by_cost(s).len() == s.len(),
        forall|k: int| 0 <= k < s.len() ==> s.contains(#[trigger] sort_by_cost(s)[k]),
    decreases s.len(),
{
    if s.len() > 0 {
        let d = s.drop_last();
        lemma_sort_members(d);
        lemma_insert_members(sort_by_cost(d), s.last());
        assert forall|k: int| 0 <= k < s.len() implies s.contains(#[trigger] sort_by_cost(s)[k]) by {
            let x = sort_by_cost(s)[k];
            if x == s.last() {
                assert(s[s.len() - 1] == x);
            } else {
                let i = choose|i: int| 0 <= i < d.len() && sort_by_cost(d)[i] == x;
                let j = choose|j: int| 0 <= j < d.len() && d[j] == x;
                assert(s[j] == x);
            }
        }
    }
}

proof fn lemma_insert_ascending(sorted: Seq<Connection>, e: Connection)
    requires
        ascending(sorted),
    ensures
        ascending(insert_by_cost(sorted, e)),
    decreases sorted.len(),
{
    lemma_insert_members(sorted, e);
    if sorted.len() > 0 && sorted.last().cost > e.cost {
        let d = sorted.drop_last();
        lemma_insert_ascending(d, e);
        lemma_insert_members(d, e);
        let r = insert_by_cost(sorted, e);
        assert forall|i: int, j: int| 0 <= i < j < r.len() implies r[i].cost <= r[j].cost by {
            if j == r.len() - 1 {
                let x = insert_by_cost(d, e)[i];
                assert(x == r[i]);
                if x != e {
                    let k = choose|k: int| 0 <= k < d.len() && d[k] == x;
                    assert(sorted[k] == x);
                }
            } else {
                assert(r[i] == insert_by_cost(d, e)[i]);
                assert(r[j] == insert_by_cost(d, e)[j]);
            }
        }
    }
}

/// Sorting puts the connections in ascending order of cost.
pub proof fn lemma_sort_ascending(s: Seq<Connection>)
    ensures
        ascending(sort_by_cost(s)),
    decreases s.len(),
{
    if s.len() > 0 {
        lemma_sort_ascending(s.drop_last());
        lemma_insert_ascending(sort_by_cost(s.drop_last()), s.last());
    }
}

proof fn lemma_insert_filter(sorted: Seq<Connection>, e: Connection, c: usize)
    ensures
        insert_by_cost(sorted, e).filter(costs(c)) == (if e.cost == c {
            sorted.filter(costs(c)).push(e)
        } else {
            sorted.filter(costs(c))
        }),
    decreases sorted.len(),
{
    reveal(Seq::filter);
    let p = costs(c);
    if sorted.len() == 0 {
        assert(seq![e].drop_last() =~= Seq::<Connection>::empty());
        assert(Seq::<Connection>::empty().filter(p) =~= Seq::<Connection>::empty());
    } else if sorted.last().cost <= e.cost {
        assert(sorted.push(e).drop_last() =~= sorted);
    } else {
        let d = sorted.drop_last();
        lemma_insert_filter(d, e, c);
        let r = insert_by_cost(d, e);
        assert(r.push(sorted.last()).drop_last() =~= r);
        assert(d.push(sorted.last()) =~= sorted);
        if p(e) && p(sorted.last()) {
            assert(false);
        }
    }
}

/// Sorting is stable: the connections of any one cost keep their relative order.
/// With `lemma_sort_ascending` this determines the sorted sequence.
pub proof fn lemma_sort_stable(s: Seq<Connection>, c: usize)
    ensures
        sort_by_cost(s).filter(costs(c)) == s.filter(costs(c)),
    decreases s.len(),
{
    reveal(Seq::filter);
    if s.len() == 0 {
        assert(Seq::<Connection>::empty().filter(costs(c)) =~= Seq::<Connection>::empty());
    } else {
        let d = s.drop_last();
        lemma_sort_stable(d, c);
        lemma_insert_filter(sort_by_cost(d), s.last(), c);
    }
}

/// Sorts connections by ascending cost, keeping the order of connections of equal cost.
pub fn sort_connections(connections: &Vec<Connection>) -> (sorted: Vec<Connection>)
    ensures
        sorted@ == sort_by_cost(connections@),
{
    let mut res: Vec<Connection> = Vec::new();
    let mut i: usize = 0;
    while i < connections.len()
        invariant
            i <= connections@.len(),
            res@ == sort_by_cost(connections@.take(i as int)),
        decreases connections@.len() - i,
    {
        let e = connections[i];
        let mut j: usize = res.len();
        while j > 0 && res[j - 1].cost > e.cost
            invariant
                j <= res@.len(),
                forall|k: int| j <= k < res@.len() ==> res@[k].cost > e.cost,
            decreases j,
        {
            j = j - 1;
        }
        proof {
            lemma_insert_at(res@, e, j as int);
            assert(connections@.take(i + 1).drop_last() =~= connections@.take(i as int));
        }
        res.insert(j, e);
        i = i + 1;
    }
    assert(connections@.take(connections@.len() as int) =~= connections@);
    res
}

/// `lab` with every `from` replaced by `to`.
pub open spec fn relabel(lab: Seq<int>, from: int, to: int) -> Seq<int> {
    Seq::new(lab.len(), |z: int| if lab[z] == from { to } else { lab[z] })
}

/// Kruskal's selection over connections taken in the given order: a connection is kept
/// iff its endpoints are not yet joined by the connections kept before it.  Returns the
/// component label of each coordinate and the kept connections.
#[verifier::opaque]
pub open spec fn kruskal_state(cs: Seq<(usize, usize)>, es: Seq<Connection>) -> (Seq<int>, Seq<Connection>)
    decreases es.len(),
{
    if es.len() == 0 {
        (Seq::new(cs.len(), |i: int| i), seq![])
    } else {
        let prev = kruskal_state(cs, es.drop_last());
        let e = es.last();
        let a = first_index(cs, e.start);
        let b = first_index(cs, e.end);
        if prev.0[a] != prev.0[b] {
            (relabel(prev.0, prev.0[a], prev.0[b]), prev.1.push(e))
        } else {
            prev
        }
    }
}

/// The connections that Kruskal's algorithm keeps: those of the minimum spanning forest,
/// taken in ascending order of cost.
pub open spec fn spanning_selection(cs: Seq<(usize, usize)>, es: Seq<Connection>) -> Seq<Connection> {
    kruskal_state(cs, sort_by_cost(es)).1
}

/// Every endpoint of every connection is one of the coordinates.
pub open spec fn endpoints_within(cs: Seq<(usize, usize)>, es: Seq<Connection>) -> bool {
    forall|k: int| 0 <= k < es.len() ==> cs.contains(#[trigger] es[k].start) && cs.contains(es[k].end)
}

/// The component labels always cover every coordinate.
pub proof fn lemma_labels_len(cs: Seq<(usize, usize)>, es: Seq<Connection>)
    ensures
        kruskal_state(cs, es).0.len() == cs.len(),
    decreases es.len(),
{
    reveal(kruskal_state);
    if es.len() > 0 {
        lemma_labels_len(cs, es.drop_last());
    }
}

/// Two ways of naming components that describe the same partition.
pub open spec fn same_partition(reps: Seq<usize>, lab: Seq<int>) -> bool {
    &&& reps.len() == lab.len()
    &&& forall|a: int, b: int|
        #![trigger reps[a], reps[b]]
        0 <= a < reps.len() && 0 <= b < reps.len() ==> ((reps[a] == reps[b]) <==> (lab[a] == lab[b]))
}

proof fn lemma_merge_correspondence(
    reps0: Seq<usize>,
    ranks0: Seq<usize>,
    lab: Seq<int>,
    a: int,
    b: int,
)
    requires
        valid_reps(reps0),
        ranks0.len() == reps0.len(),
        same_partition(reps0, lab),
        0 <= a < reps0.len(),
        0 <= b < reps0.len(),
        reps0[a] != reps0[b],
    ensures
        same_partition(
            union_reps(reps0, ranks0, reps0[a] as int, reps0[b] as int),
            relabel(lab, lab[a], lab[b]),
        ),
{
    let rs = reps0[a] as int;
    let re = reps0[b] as int;
    let r1 = union_reps(reps0, ranks0, rs, re);
    let lab1 = relabel(lab, lab[a], lab[b]);
    assert forall|p: int, q: int|
        #![trigger r1[p], r1[q]]
        0 <= p < r1.len() && 0 <= q < r1.len() implies ((r1[p] == r1[q]) <==> (lab1[p] == lab1[q])) by {
        lemma_union_merges_only(reps0, ranks0, rs, re, p, q);
        assert((reps0[p] == reps0[a]) == (lab[p] == lab[a]));
        assert((reps0[q] == reps0[a]) == (lab[q] == lab[a]));
        assert((reps0[p] == reps0[b]) == (lab[p] == lab[b]));
        assert((reps0[q] == reps0[b]) == (lab[q] == lab[b]));
        assert((reps0[p] == reps0[q]) == (lab[p] == lab[q]));
    }
}

proof fn lemma_state_step(cs: Seq<(usize, usize)>, es: Seq<Connection>, i: int)
    requires
        0 <= i < es.len(),
    ensures
        ({
            let prev = kruskal_state(cs, es.take(i));
            let e = es[i];
            let a = first_index(cs, e.start);
            let b = first_index(cs, e.end);
            kruskal_state(cs, es.take(i + 1)) == if prev.0[a] != prev.0[b] {
                (relabel(prev.0, prev.0[a], prev.0[b]), prev.1.push(e))
            } else {
                prev
            }
        }),
{
    reveal(kruskal_state);
    assert(es.take(i + 1).drop_last() =~= es.take(i));
    assert(es.take(i + 1).last() == es[i]);
}

/// Selects the connections of a minimum spanning forest over `coordinates`, cheapest first.
pub fn kruskal(coordinates: Vec<(usize, usize)>, connections: Vec<Connection>) -> (result: Vec<Connection>)
    requires
        endpoints_within(coordinates@, connections@),
    ensures
        result@ == spanning_selection(coordinates@, connections@),
{
    let mut result: Vec<Connection> = Vec::new();
    let mut mf_set = MergeFindSet::new(coordinates.len());
    let sorted_connections = sort_connections(&connections);
    let ghost cs = coordinates@;
    let ghost es = sorted_connections@;
    proof {
        lemma_sort_members(connections@);
        assert forall|k: int| 0 <= k < es.len() implies cs.contains(#[trigger] es[k].start) && cs.contains(
            es[k].end,
        ) by {
            let j = choose|j: int| 0 <= j < connections@.len() && connections@[j] == es[k];
            assert(cs.contains(connections@[j].start));
        }
        assert(es.take(0) =~= Seq::<Connection>::empty());
        reveal(kruskal_state);
        assert(same_partition(mf_set.reps(), kruskal_state(cs, es.take(0)).0));
    }
    let mut i: usize = 0;
    while i < sorted_connections.len()
        invariant
            cs == coordinates@,
            es == sorted_connections@,
            es == sort_by_cost(connections@),
            endpoints_within(cs, es),
            mf_set.wf(),
            mf_set.reps().len() == cs.len(),
            i <= es.len(),
            result@ == kruskal_state(cs, es.take(i as int)).1,
            same_partition(mf_set.reps(), kruskal_state(cs, es.take(i as int)).0),
        decreases es.len() - i,
    {
        let connection = sorted_connections[i];
        proof {
            assert(cs.contains(es[i as int].start));
        }
        let a = position_of(&coordinates, connection.start);
        let b = position_of(&coordinates, connection.end);
        proof {
            lemma_state_step(cs, es, i as int);
        }
        let ghost lab = kruskal_state(cs, es.take(i as int)).0;
        let root_start = mf_set.find(a);
        let root_end = mf_set.find(b);
        proof {
            assert((mf_set.reps()[a as int] == mf_set.reps()[b as int]) == (lab[a as int] == lab[b as int]));
        }
        if root_start != root_end {
            let ghost reps0 = mf_set.reps();
            let ghost ranks0 = mf_set.ranks();
            proof {
                lemma_find_idempotent(&mf_set, a as int);
                lemma_find_idempotent(&mf_set, b as int);
            }
            mf_set.union(root_start, root_end);
            result.push(connection);
            proof {
                lemma_merge_correspondence(reps0, ranks0, lab, a as int, b as int);
            }
        }
        i = i + 1;
    }
    proof {
        assert(i == es.len());
        assert(es.take(i as int) =~= es);
        assert(result@ == kruskal_state(cs, es).1);
    }
    result
}

/// Every pair of coordinates is at a Manhattan distance that fits in a `usize`.
pub open spec fn distances_fit(cs: Seq<(usize, usize)>) -> bool {
    forall|i: int, j: int| 0 <= i < cs.len() && 0 <= j < cs.len() ==> manhattan(cs[i], cs[j]) <= usize::MAX
}

/// The coordinates after `at` are at distances from `cs[at]` that fit in a `usize`.
pub open spec fn distances_from_fit(cs: Seq<(usize, usize)>, at: int) -> bool {
    forall|j: int| at < j < cs.len() ==> manhattan(cs[at], #[trigger] cs[j]) <= usize::MAX
}

/// `order` lists the coordinates after `at`, each once, nearest to `cs[at]` first.
pub open spec fn closest_order(cs: Seq<(usize, usize)>, at: int, order: Seq<usize>) -> bool {
    &&& order.no_duplicates()
    &&& forall|k: int| 0 <= k < order.len() ==> at < #[trigger] order[k] < cs.len()
    &&& forall|i: usize| at < i < cs.len() ==> #[trigger] order.contains(i)
    &&& forall|i: int, j: int|
        0 <= i < j < order.len() ==> manhattan(cs[at], cs[order[i] as int]) <= manhattan(cs[at], cs[order[j] as int])
}

/// Lists the coordinates after `at`, nearest first, ordered by a priority queue keyed on distance.
pub fn find_closest(coordinates: &Vec<(usize, usize)>, at: usize) -> (order: Vec<usize>)
    requires
        at < coordinates@.len(),
        distances_from_fit(coordinates@, at as int),
    ensures
        closest_order(coordinates@, at as int, order@),
{
    let start = coordinates[at];
    let mut priority = queue_new();
    let n = coordinates.len();
    let mut i: usize = at + 1;
    while i < coordinates.len()
        invariant
            at < i <= coordinates@.len(),
            start == coordinates@[at as int],
            distances_from_fit(coordinates@, at as int),
            queued(priority) =~= Map::new(
                |k: usize| at < k < i,
                |k: usize| manhattan(start, coordinates@[k as int]) as usize,
            ),
        decreases coordinates@.len() - i,
    {
        let dis = dist(start, coordinates[i]);
        queue_push(&mut priority, i, dis);
        i = i + 1;
    }
    let ghost q = queued(priority);
    let order = queue_into_sorted_vec(priority);
    proof {
        assert forall|j: usize| at < j < coordinates@.len() implies #[trigger] order@.contains(j) by {
            assert(q.dom().contains(j));
        }
        assert forall|a: int, b: int| 0 <= a < b < order@.len() implies manhattan(
            coordinates@[at as int],
            coordinates@[order@[a] as int],
        ) <= manhattan(coordinates@[at as int], coordinates@[order@[b] as int]) by {
            assert(q.dom().contains(order@[a]));
            assert(q.dom().contains(order@[b]));
        }
    }
    order
}

/// The connection from coordinate `a` to coordinate `b`, costing their distance.
pub open spec fn link(cs: Seq<(usize, usize)>, a: int, b: int) -> Connection {
    Connection { cost: manhattan(cs[a], cs[b]) as usize, start: cs[a], end: cs[b] }
}

/// How many of its nearest coordinates a coordinate links to, given how many connections
/// it has already and how many coordinates are after it: up to four in all, and one
/// more once it has four.
pub open spec fn link_count(count: int, available: int) -> int {
    if count < 4 {
        if 4 - count <= available {
            4 - count
        } else {
            available
        }
    } else if available >= 1 {
        1
    } else {
        0
    }
}

/// Connection counts and connections after coordinates `0..m` have been linked to their
/// nearest followers, as listed in `lists`.
pub open spec fn links_upto(cs: Seq<(usize, usize)>, lists: Seq<Seq<usize>>, m: nat) -> (Seq<int>, Seq<Connection>)
    decreases m,
{
    if m == 0 {
        (Seq::new(cs.len(), |z: int| 0int), seq![])
    } else {
        let prev = links_upto(cs, lists, (m - 1) as nat);
        let at = m - 1;
        let list = lists[at];
        let k = link_count(prev.0[at], list.len() as int);
        (
            Seq::new(
                prev.0.len(),
                |z: int|
                    prev.0[z] + (if z == at {
                        k
                    } else {
                        0
                    }) + (if list.take(k).contains(z as usize) {
                        1int
                    } else {
                        0
                    }),
            ),
            prev.1 + Seq::new(k as nat, |t: int| link(cs, at, list[t] as int)),
        )
    }
}

/// The candidate connections among `cs`, each coordinate but the last linked to its
/// nearest followers in the order `lists` gives.
pub open spec fn candidate_connections(cs: Seq<(usize, usize)>, lists: Seq<Seq<usize>>) -> Seq<Connection> {
    if cs.len() == 0 {
        seq![]
    } else {
        links_upto(cs, lists, (cs.len() - 1) as nat).1
    }
}

/// `lists[at]` orders the followers of every coordinate but the last by distance.
pub open spec fn closest_lists(cs: Seq<(usize, usize)>, lists: Seq<Seq<usize>>) -> bool {
    &&& lists.len() + 1 >= cs.len()
    &&& forall|at: int| 0 <= at < cs.len() - 1 ==> closest_order(cs, at, #[trigger] lists[at])
}

proof fn lemma_take_grows(list: Seq<usize>, i: int)
    requires
        0 <= i < list.len(),
    ensures
        forall|x: usize|
            #[trigger] list.take(i + 1).contains(x) <==> (list.take(i).contains(x) || x == list[i]),
{
    assert forall|x: usize| #[trigger] list.take(i + 1).contains(x) <==> (list.take(i).contains(x) || x
        == list[i]) by {
        let longer = list.take(i + 1);
        let shorter = list.take(i);
        if longer.contains(x) {
            let t = choose|t: int| 0 <= t < i + 1 && longer[t] == x;
            if t < i {
                assert(list.take(i)[t] == x);
            }
        }
        if shorter.contains(x) {
            let t = choose|t: int| 0 <= t < i && shorter[t] == x;
            assert(longer[t] == x);
        }
        if x == list[i] {
            assert(list.take(i + 1)[i] == x);
        }
    }
}

/// The lists held by a vector of vectors.
pub open spec fn list_views(v: Seq<Vec<usize>>) -> Seq<Seq<usize>> {
    v.map_values(|l: Vec<usize>| l@)
}

proof fn lemma_links_shape(cs: Seq<(usize, usize)>, lists: Seq<Seq<usize>>, m: nat)
    ensures
        links_upto(cs, lists, m).0.len() == cs.len(),
    decreases m,
{
    if m > 0 {
        lemma_links_shape(cs, lists, (m - 1) as nat);
    }
}

/// Links each coordinate but the last to its nearest followers, as `closest` lists them:
/// up to four connections per coordinate, counting those it already received, and one
/// more once it has four.
pub fn build_connections(coordinates: &Vec<(usize, usize)>, closest: &Vec<Vec<usize>>) -> (connections: Vec<
    Connection,
>)
    requires
        distances_fit(coordinates@),
        closest_lists(coordinates@, list_views(closest@)),
    ensures
        connections@ == candidate_connections(coordinates@, list_views(closest@)),
{
    let ghost cs = coordinates@;
    let ghost lists = list_views(closest@);
    let n = coordinates.len();
    let mut count_connections: Vec<usize> = Vec::new();
    let mut z: usize = 0;
    while z < n
        invariant
            z <= n,
            n == cs.len(),
            count_connections@ == Seq::new(z as nat, |k: int| 0usize),
        decreases n - z,
    {
        count_connections.push(0);
        z = z + 1;
    }
    let mut connections: Vec<Connection> = Vec::new();
    let mut at: usize = 0;
    proof {
        lemma_links_shape(cs, lists, 0);
    }
    while at + 1 < n
        invariant
            n == cs.len(),
            cs == coordinates@,
            lists == list_views(closest@),
            distances_fit(cs),
            closest_lists(cs, lists),
            at < n || n == 0,
            at == 0 || at < n,
            count_connections@.len() == n,
            forall|k: int| 0 <= k < n ==> count_connections@[k] == #[trigger] links_upto(cs, lists, at as nat).0[k],
            forall|k: int| at <= k < n ==> count_connections@[k] <= at,
            connections@ == links_upto(cs, lists, at as nat).1,
        decreases n - at,
    {
        let to_connect = &closest[at];
        let ghost list = lists[at as int];
        let ghost count0 = count_connections@;
        let ghost conns0 = connections@;
        proof {
            assert(list == to_connect@);
            assert(closest_order(cs, at as int, list));
            lemma_links_shape(cs, lists, (at + 1) as nat);
        }
        let mut i: usize = 0;
        proof {
            assert(list.take(0) =~= Seq::<usize>::empty());
            assert(conns0 =~= conns0 + Seq::new(0, |t: int| link(cs, at as int, list[t] as int)));
        }
        if count_connections[at] < 4 {
            while count_connections[at] < 4 && i < to_connect.len()
                invariant
                    n == cs.len(),
                    cs == coordinates@,
                    at + 1 < n,
                    distances_fit(cs),
                    list == to_connect@,
                    closest_order(cs, at as int, list),
                    count0[at as int] < 4,
                    count0.len() == n,
                    count0[at as int] + i <= 4,
                    i <= list.len(),
                    count_connections@.len() == n,
                    count_connections@[at as int] == count0[at as int] + i,
                    forall|k: int|
                        0 <= k < n && k != at ==> #[trigger] count_connections@[k] == count0[k] + (if list.take(
                            i as int,
                        ).contains(k as usize) {
                            1int
                        } else {
                            0
                        }),
                    forall|k: int| at < k < n ==> count0[k] <= at,
                    connections@ == conns0 + Seq::new(i as nat, |t: int| link(cs, at as int, list[t] as int)),
                decreases list.len() - i,
            {
                let j = to_connect[i];
                proof {
                    assert(!list.take(i as int).contains(j)) by {
                        if list.take(i as int).contains(j) {
                            let t = choose|t: int| 0 <= t < i && list.take(i as int)[t] == j;
                            assert(list[t] == list[i as int]);
                        }
                    }
                }
                let new_connection = Connection {
                    cost: dist(coordinates[at], coordinates[j]),
                    start: coordinates[at],
                    end: coordinates[j],
                };
                connections.push(new_connection);
                count_connections[at] = count_connections[at] + 1;
                count_connections[j] = count_connections[j] + 1;
                proof {
                    lemma_take_grows(list, i as int);
                    assert(connections@ =~= conns0 + Seq::new(
                        (i + 1) as nat,
                        |t: int| link(cs, at as int, list[t] as int),
                    ));
                }
                i = i + 1;
            }
        } else if to_connect.len() > 0 {
            let j = to_connect[i];
            let new_connection = Connection {
                cost: dist(coordinates[at], coordinates[j]),
                start: coordinates[at],
                end: coordinates[j],
            };
            connections.push(new_connection);
            count_connections[at] = count_connections[at] + 1;
            count_connections[j] = count_connections[j] + 1;
            i = i + 1;
            proof {
                lemma_take_grows(list, 0);
                assert(list.take(0) =~= Seq::<usize>::empty());
                assert(connections@ =~= conns0 + Seq::new(1, |t: int| link(cs, at as int, list[t] as int)));
            }
        }
        proof {
            let k = link_count(count0[at as int] as int, list.len() as int);
            assert(i == k);
            let next = links_upto(cs, lists, (at + 1) as nat);
            assert(next.1 == conns0 + Seq::new(k as nat, |t: int| link(cs, at as int, list[t] as int)));
            assert forall|q: int| 0 <= q < n implies count_connections@[q] == #[trigger] next.0[q] by {
                if q != at {
                    if count0[at as int] >= 4 && list.len() > 0 {
                        assert(list.take(1).contains(q as usize) == (list[0] == q as usize));
                    } else if count0[at as int] >= 4 {
                        assert(list.take(0) =~= Seq::<usize>::empty());
                    }
                }
            }
            assert forall|q: int| at + 1 <= q < n implies count_connections@[q] <= at + 1 by {
                assert(count0[q] <= at);
            }
        }
        at = at + 1;
    }
    proof {
        if n > 0 {
            assert(at == n - 1);
        }
    }
    connections
}

/// `c` joins a coordinate to a later one and costs their distance.
pub open spec fn forward_link(cs: Seq<(usize, usize)>, c: Connection) -> bool {
    exists|a: int, b: int| 0 <= a < b < cs.len() && c == #[trigger] link(cs, a, b)
}

proof fn lemma_links_are_forward(cs: Seq<(usize, usize)>, lists: Seq<Seq<usize>>, m: nat)
    requires
        closest_lists(cs, lists),
        m + 1 <= cs.len(),
    ensures
        forall|k: int|
            0 <= k < links_upto(cs, lists, m).1.len() ==> forward_link(cs, #[trigger] links_upto(cs, lists, m).1[k]),
    decreases m,
{
    if m > 0 {
        let at = m - 1;
        lemma_links_are_forward(cs, lists, (m - 1) as nat);
        let prev = links_upto(cs, lists, (m - 1) as nat);
        let cur = links_upto(cs, lists, m);
        let list = lists[at];
        assert(closest_order(cs, at, list));
        let cnt = link_count(prev.0[at], list.len() as int);
        assert(cnt <= list.len());
        assert forall|k: int| 0 <= k < cur.1.len() implies forward_link(cs, #[trigger] cur.1[k]) by {
            if k < prev.1.len() {
                assert(cur.1[k] == prev.1[k]);
            } else {
                let t = k - prev.1.len();
                let b = list[t] as int;
                assert(cur.1[k] == link(cs, at, b));
                assert(0 <= at < b < cs.len());
            }
        }
    }
}

/// Every candidate connection joins a coordinate to a later one and costs their distance.
pub proof fn lemma_candidates_are_links(cs: Seq<(usize, usize)>, lists: Seq<Seq<usize>>)
    requires
        closest_lists(cs, lists),
    ensures
        forall|k: int|
            0 <= k < candidate_connections(cs, lists).len() ==> forward_link(
                cs,
                #[trigger] candidate_connections(cs, lists)[k],
            ),
        endpoints_within(cs, candidate_connections(cs, lists)),
{
    if cs.len() > 0 {
        lemma_links_are_forward(cs, lists, (cs.len() - 1) as nat);
    }
    let c = candidate_connections(cs, lists);
    assert forall|k: int| 0 <= k < c.len() implies cs.contains(#[trigger] c[k].start) && cs.contains(
        c[k].end,
    ) by {
        assert(forward_link(cs, c[k]));
        let (a, b) = choose|a: int, b: int| 0 <= a < b < cs.len() && c[k] == #[trigger] link(cs, a, b);
        assert(cs[a] == c[k].start);
        assert(cs[b] == c[k].end);
    }
}

/// Candidate connections among the coordinates: each coordinate but the last is linked
/// to its nearest followers, as a distance queue orders them.
pub fn connections_list(coordinates: &Vec<(usize, usize)>) -> (connections: Vec<Connection>)
    requires
        distances_fit(coordinates@),
    ensures
        exists|lists: Seq<Seq<usize>>|
            closest_lists(coordinates@, lists) && connections@ == #[trigger] candidate_connections(
                coordinates@,
                lists,
            ),
{
    let n = coordinates.len();
    let mut closest: Vec<Vec<usize>> = Vec::new();
    let mut at: usize = 0;
    while at + 1 < n
        invariant
            n == coordinates@.len(),
            distances_fit(coordinates@),
            at == closest@.len(),
            at < n || n == 0,
            at == 0 || at < n,
            forall|k: int| 0 <= k < at ==> closest_order(coordinates@, k, #[trigger] list_views(closest@)[k]),
        decreases n - at,
    {
        let order = find_closest(coordinates, at);
        let ghost before = closest@;
        closest.push(order);
        proof {
            assert(list_views(closest@) =~= list_views(before).push(order@));
        }
        at = at + 1;
    }
    let connections = build_connections(coordinates, &closest);
    proof {
        let lists = list_views(closest@);
        assert(closest_lists(coordinates@, lists));
    }
    connections
}

/// Plans the road network over the given points of interest: the minimum spanning forest
/// of their candidate connections, cheapest connection first.
pub fn por(coordinates: Vec<(usize, usize)>) -> (tree: Vec<Connection>)
    requires
        distances_fit(coordinates@),
    ensures
        exists|lists: Seq<Seq<usize>>|
            closest_lists(coordinates@, lists) && tree@ == #[trigger] spanning_selection(
                coordinates@,
                candidate_connections(coordinates@, lists),
            ),
{
    let connections = connections_list(&coordinates);
    let ghost lists = choose|lists: Seq<Seq<usize>>|
        closest_lists(coordinates@, lists) && connections@ == #[trigger] candidate_connections(
            coordinates@,
            lists,
        );
    proof {
        lemma_candidates_are_links(coordinates@, lists);
    }
    let minimum_spanning_tree = kruskal(coordinates, connections);
    minimum_spanning_tree
}

} // verus!
