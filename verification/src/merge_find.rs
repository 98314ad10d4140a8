use vstd::prelude::*;
use vstd::set_lib::*;
use vstd::arithmetic::power2::{pow2, lemma2_to64, lemma_pow2_pos, lemma_pow2_unfold, lemma_pow2_strictly_increases};

verus! {

/// The members of the class whose representative is `r`.
pub open spec fn class_of(rep: Seq<usize>, r: int) -> Set<int> {
    Set::new(|z: int| 0 <= z < rep.len() && rep[z] == r)
}

/// The representative that survives when the classes of `x` and `y` are merged:
/// the one of higher rank, and the one of `y` when the ranks are equal.
pub open spec fn union_winner(rep: Seq<usize>, rank: Seq<usize>, x: int, y: int) -> usize {
    let rx = rep[x];
    let ry = rep[y];
    if rank[rx as int] > rank[ry as int] {
        rx
    } else {
        ry
    }
}

/// The representative that is absorbed when the classes of `x` and `y` are merged.
pub open spec fn union_loser(rep: Seq<usize>, rank: Seq<usize>, x: int, y: int) -> usize {
    let rx = rep[x];
    let ry = rep[y];
    if rank[rx as int] > rank[ry as int] {
        ry
    } else {
        rx
    }
}

/// Representatives after merging the classes of `x` and `y`.
pub open spec fn union_reps(rep: Seq<usize>, rank: Seq<usize>, x: int, y: int) -> Seq<usize> {
    if rep[x] == rep[y] {
        rep
    } else {
        let w = union_winner(rep, rank, x, y);
        let l = union_loser(rep, rank, x, y);
        Seq::new(rep.len(), |z: int| if rep[z] == l { w } else { rep[z] })
    }
}

/// Ranks after merging the classes of `x` and `y`: only a tie raises the winner's rank.
pub open spec fn union_ranks(rep: Seq<usize>, rank: Seq<usize>, x: int, y: int) -> Seq<usize> {
    let rx = rep[x];
    let ry = rep[y];
    if rx != ry && rank[rx as int] == rank[ry as int] {
        rank.update(ry as int, (rank[ry as int] + 1) as usize)
    } else {
        rank
    }
}

/// The node reached from `x` after `k` steps up the parent links.
pub open spec fn ancestor(parent: Seq<usize>, x: int, k: nat) -> int
    decreases k,
{
    if k == 0 {
        x
    } else {
        parent[ancestor(parent, x, (k - 1) as nat)] as int
    }
}

/// Node `a` lies on the path from `x` up to its root.
pub open spec fn on_path(parent: Seq<usize>, x: int, a: int) -> bool {
    exists|k: nat| #[trigger] ancestor(parent, x, k) == a
}

/// The parent links after compressing the path from `x`: every node on it points at `root`,
/// every other node keeps its parent.
pub open spec fn compressed(parent: Seq<usize>, x: int, root: usize) -> Seq<usize> {
    Seq::new(parent.len(), |a: int| if on_path(parent, x, a) { root } else { parent[a] })
}

/// The parent links after linking the roots found for `x` and `y`: nothing changes when
/// they are the same, else the absorbed root points at the surviving one.
pub open spec fn union_parents(parent: Seq<usize>, rep: Seq<usize>, rank: Seq<usize>, x: int, y: int) -> Seq<usize> {
    let p = compressed(compressed(parent, x, rep[x]), y, rep[y]);
    if rep[x] == rep[y] {
        p
    } else {
        p.update(union_loser(rep, rank, x, y) as int, union_winner(rep, rank, x, y))
    }
}

proof fn lemma_ancestor_shift(parent: Seq<usize>, x: int, k: nat)
    ensures
        ancestor(parent, x, k + 1) == ancestor(parent, parent[x] as int, k),
    decreases k,
{
    assert(ancestor(parent, x, k + 1) == parent[ancestor(parent, x, k)] as int);
    if k > 0 {
        lemma_ancestor_shift(parent, x, (k - 1) as nat);
        assert(ancestor(parent, parent[x] as int, k) == parent[ancestor(parent, parent[x] as int, (k - 1) as nat)] as int);
    } else {
        assert(ancestor(parent, x, 0) == x);
    }
}

proof fn lemma_path_step(parent: Seq<usize>, x: int, a: int)
    requires
        a != x,
    ensures
        on_path(parent, x, a) == on_path(parent, parent[x] as int, a),
{
    let p = parent[x] as int;
    if on_path(parent, x, a) {
        let k = choose|k: nat| #[trigger] ancestor(parent, x, k) == a;
        assert(k > 0);
        lemma_ancestor_shift(parent, x, (k - 1) as nat);
        assert(ancestor(parent, p, (k - 1) as nat) == a);
    }
    if on_path(parent, p, a) {
        let j = choose|j: nat| #[trigger] ancestor(parent, p, j) == a;
        lemma_ancestor_shift(parent, x, j);
        assert(ancestor(parent, x, j + 1) == a);
    }
}

proof fn lemma_root_path(parent: Seq<usize>, r: int, k: nat)
    requires
        parent[r] == r,
    ensures
        ancestor(parent, r, k) == r,
    decreases k,
{
    if k > 0 {
        lemma_root_path(parent, r, (k - 1) as nat);
    }
}

proof fn lemma_compressed_path(parent: Seq<usize>, x: int, root: usize, k: nat)
    requires
        0 <= x < parent.len(),
        root < parent.len(),
        parent[root as int] == root,
    ensures
        ancestor(compressed(parent, x, root), x, k) == x || ancestor(compressed(parent, x, root), x, k) == root,
    decreases k,
{
    let c = compressed(parent, x, root);
    assert(ancestor(parent, x, 0) == x);
    assert(c[x] == root);
    if !on_path(parent, x, root as int) {
        assert(c[root as int] == root);
    }
    if k > 0 {
        lemma_compressed_path(parent, x, root, (k - 1) as nat);
    }
}

/// Compressing the path from `x` towards a root a second time changes nothing: `x` and
/// the root already point at the root.
pub proof fn lemma_compress_twice(parent: Seq<usize>, x: int, root: usize)
    requires
        0 <= x < parent.len(),
        root < parent.len(),
        parent[root as int] == root,
    ensures
        compressed(compressed(parent, x, root), x, root) == compressed(parent, x, root),
{
    let c = compressed(parent, x, root);
    assert(ancestor(parent, x, 0) == x);
    assert forall|a: int| 0 <= a < c.len() implies compressed(c, x, root)[a] == c[a] by {
        if on_path(c, x, a) {
            let k = choose|k: nat| #[trigger] ancestor(c, x, k) == a;
            lemma_compressed_path(parent, x, root, k);
            if !on_path(parent, x, root as int) {
                assert(c[root as int] == root);
            }
        }
    }
    assert(compressed(c, x, root) =~= c);
}

/// `e < 2^e`.
pub proof fn lemma_below_pow2(e: nat)
    ensures
        e < pow2(e),
    decreases e,
{
    lemma_pow2_pos(e);
    if e > 0 {
        lemma_below_pow2((e - 1) as nat);
        lemma_pow2_unfold(e);
    }
}

/// A valid assignment of representatives: each representative represents itself.
pub open spec fn valid_reps(rep: Seq<usize>) -> bool {
    forall|z: int| 0 <= z < rep.len() ==> {
        &&& #[trigger] rep[z] < rep.len()
        &&& rep[rep[z] as int] == rep[z]
    }
}

/// A disjoint-set forest over `0..n`, with union by rank and path compression.
pub struct MergeFindSet {
    parent: Vec<usize>,
    rank: Vec<usize>,
    rep: Ghost<Seq<usize>>,
}

impl MergeFindSet {
    /// The representative of each element: the root of its tree.
    pub closed spec fn reps(&self) -> Seq<usize> {
        self.rep@
    }

    /// The parent of each element in the forest.
    pub closed spec fn parents(&self) -> Seq<usize> {
        self.parent@
    }

    /// The rank of each element.
    pub closed spec fn ranks(&self) -> Seq<usize> {
        self.rank@
    }

    spec fn shape_ok(&self) -> bool {
        let n = self.parent@.len();
        &&& self.rank@.len() == n
        &&& self.rep@.len() == n
        &&& forall|z: int| 0 <= z < n ==> #[trigger] self.parent@[z] < n
        &&& valid_reps(self.rep@)
    }

    spec fn roots_ok(&self) -> bool {
        let n = self.parent@.len();
        &&& forall|z: int| 0 <= z < n ==> self.parent@[#[trigger] self.rep@[z] as int] == self.rep@[z]
        &&& forall|z: int| 0 <= z < n ==> self.rep@[#[trigger] self.parent@[z] as int] == self.rep@[z]
        &&& forall|z: int| 0 <= z < n && #[trigger] self.parent@[z] == z ==> self.rep@[z] == z
    }

    spec fn ranks_ok(&self) -> bool {
        let n = self.parent@.len();
        &&& forall|z: int|
            0 <= z < n && #[trigger] self.parent@[z] != z ==> self.rank@[z] < self.rank@[self.parent@[z] as int]
        &&& forall|z: int| 0 <= z < n ==> self.rank@[z] <= self.rank@[#[trigger] self.rep@[z] as int]
        &&& forall|z: int|
            0 <= z < n ==> pow2(self.rank@[#[trigger] self.rep@[z] as int] as nat) <= class_of(
                self.rep@,
                self.rep@[z] as int,
            ).len()
    }

    /// The internal invariant of the forest.
    pub closed spec fn wf(&self) -> bool {
        &&& self.shape_ok()
        &&& self.roots_ok()
        &&& self.ranks_ok()
    }

    proof fn lemma_class_bounded(rep: Seq<usize>, r: int)
        ensures
            class_of(rep, r).finite(),
            class_of(rep, r).len() <= rep.len(),
    {
        lemma_int_range(0, rep.len() as int);
        lemma_len_subset(class_of(rep, r), set_int_range(0, rep.len() as int));
    }

    proof fn lemma_rank_bounded(&self, z: int)
        requires
            self.wf(),
            0 <= z < self.parent@.len(),
        ensures
            self.rank@[z] < self.parent@.len(),
    {
        Self::lemma_class_bounded(self.rep@, self.rep@[z] as int);
        lemma_below_pow2(self.rank@[self.rep@[z] as int] as nat);
    }

    /// Creates `size` singleton classes.
    pub fn new(size: usize) -> (s: Self)
        ensures
            s.wf(),
            s.reps() == Seq::new(size as nat, |i: int| i as usize),
            s.ranks() == Seq::new(size as nat, |i: int| 0usize),
            s.parents() == Seq::new(size as nat, |i: int| i as usize),
    {
        let mut parent: Vec<usize> = Vec::new();
        let mut rank: Vec<usize> = Vec::new();
        let mut i: usize = 0;
        while i < size
            invariant
                i <= size,
                parent@ == Seq::new(i as nat, |k: int| k as usize),
                rank@ == Seq::new(i as nat, |k: int| 0usize),
            decreases size - i,
        {
            parent.push(i);
            rank.push(0);
            i = i + 1;
        }
        let ghost rep = Seq::new(size as nat, |k: int| k as usize);
        let s = MergeFindSet { parent, rank, rep: Ghost(rep) };
        assert forall|z: int| 0 <= z < size implies pow2(s.rank@[#[trigger] s.rep@[z] as int] as nat) <= class_of(
            s.rep@,
            s.rep@[z] as int,
        ).len() by {
            assert(class_of(rep, z) =~= set![z]);
            lemma2_to64();
        }
        s
    }

    /// Returns the representative of `x`, compressing the path from `x` to it.
    pub fn find(&mut self, x: usize) -> (root: usize)
        requires
            old(self).wf(),
            x < old(self).reps().len(),
        ensures
            final(self).wf(),
            final(self).reps() == old(self).reps(),
            final(self).ranks() == old(self).ranks(),
            root == old(self).reps()[x as int],
            final(self).parents() == compressed(old(self).parents(), x as int, root),
            final(self).parents().len() == old(self).parents().len(),
            final(self).parents()[root as int] == root,
        decreases old(self).reps().len() - old(self).ranks()[x as int],
    {
        let ghost parent0 = self.parent@;
        proof {
            self.lemma_rank_bounded(x as int);
        }
        if self.parent[x] != x {
            let p = self.parent[x];
            proof {
                self.lemma_rank_bounded(p as int);
            }
            let r = self.find(p);
            self.parent[x] = r;
            proof {
                assert(self.rep@[p as int] == self.rep@[x as int]);
                assert(self.rank@[x as int] < self.rank@[r as int]);
                assert(ancestor(parent0, x as int, 0) == x);
                assert forall|a: int| 0 <= a < parent0.len() implies self.parent@[a] == compressed(
                    parent0,
                    x as int,
                    r,
                )[a] by {
                    if a != x {
                        lemma_path_step(parent0, x as int, a);
                    }
                }
                assert(self.parent@ =~= compressed(parent0, x as int, r));
            }
        } else {
            proof {
                assert forall|a: int| 0 <= a < parent0.len() implies parent0[a] == compressed(
                    parent0,
                    x as int,
                    x,
                )[a] by {
                    if on_path(parent0, x as int, a) {
                        let k = choose|k: nat| #[trigger] ancestor(parent0, x as int, k) == a;
                        lemma_root_path(parent0, x as int, k);
                    }
                }
                assert(self.parent@ =~= compressed(parent0, x as int, x));
            }
        }
        self.parent[x]
    }

    /// Merges the classes of `x` and `y`; the root of lower rank is attached to the other.
    pub fn union(&mut self, x: usize, y: usize)
        requires
            old(self).wf(),
            x < old(self).reps().len(),
            y < old(self).reps().len(),
        ensures
            final(self).wf(),
            final(self).reps() == union_reps(old(self).reps(), old(self).ranks(), x as int, y as int),
            final(self).ranks() == union_ranks(old(self).reps(), old(self).ranks(), x as int, y as int),
            final(self).parents() == union_parents(
                old(self).parents(),
                old(self).reps(),
                old(self).ranks(),
                x as int,
                y as int,
            ),
    {
        let ghost rep0 = self.rep@;
        let ghost rank0 = self.rank@;
        let ghost parent0 = self.parent@;
        let root_x = self.find(x);
        let root_y = self.find(y);
        let size = self.parent.len();
        if root_x != root_y {
            let ghost n = self.parent@.len();
            let ghost cx = class_of(rep0, root_x as int);
            let ghost cy = class_of(rep0, root_y as int);
            proof {
                Self::lemma_class_bounded(rep0, root_x as int);
                Self::lemma_class_bounded(rep0, root_y as int);
                assert(cx.disjoint(cy));
                lemma_set_disjoint_lens(cx, cy);
                self.lemma_rank_bounded(root_y as int);
                assert(self.rep@[x as int] == root_x && self.rep@[y as int] == root_y);
                assert(pow2(rank0[root_x as int] as nat) <= cx.len());
                assert(pow2(rank0[root_y as int] as nat) <= cy.len());
            }
            let ghost w: usize;
            let ghost l: usize;
            if self.rank[root_x] < self.rank[root_y] {
                self.parent[root_x] = root_y;
                proof {
                    w = root_y;
                    l = root_x;
                }
            } else if self.rank[root_x] > self.rank[root_y] {
                self.parent[root_y] = root_x;
                proof {
                    w = root_x;
                    l = root_y;
                }
            } else {
                self.parent[root_x] = root_y;
                assert(self.rank@[root_y as int] < size);
                self.rank[root_y] = self.rank[root_y] + 1;
                proof {
                    w = root_y;
                    l = root_x;
                }
            }
            proof {
                let rep1 = Seq::new(n, |z: int| if rep0[z] == l { w } else { rep0[z] });
                self.rep@ = rep1;
                assert(class_of(rep1, w as int) =~= cx + cy);
                assert forall|r: int| r != w && r != l implies #[trigger] class_of(rep1, r) == class_of(
                    rep0,
                    r,
                ) by {
                    assert(class_of(rep1, r) =~= class_of(rep0, r));
                }
                assert(rep1 == union_reps(rep0, rank0, x as int, y as int));
                assert(self.parent@ == union_parents(parent0, rep0, rank0, x as int, y as int));
                assert(self.rank@ == union_ranks(rep0, rank0, x as int, y as int));
                assert(pow2(self.rank@[w as int] as nat) <= (cx + cy).len()) by {
                    if rank0[root_x as int] == rank0[root_y as int] {
                        lemma_pow2_unfold(self.rank@[w as int] as nat);
                    }
                }
                assert forall|z: int|
                    0 <= z < n implies pow2(self.rank@[#[trigger] self.rep@[z] as int] as nat) <= class_of(
                    self.rep@,
                    self.rep@[z] as int,
                ).len() by {
                    if rep0[z] != l && rep0[z] != w {
                        assert(class_of(rep1, rep0[z] as int) == class_of(rep0, rep0[z] as int));
                    }
                }
            }
        }
    }
}

/// Every representative of a well-formed forest stands for itself, so looking up the
/// representative of a representative gives it back.
pub proof fn lemma_find_idempotent(s: &MergeFindSet, x: int)
    requires
        s.wf(),
        0 <= x < s.reps().len(),
    ensures
        valid_reps(s.reps()),
        s.ranks().len() == s.reps().len(),
        s.reps()[s.reps()[x] as int] == s.reps()[x],
{
}

proof fn lemma_reaches_root(s: &MergeFindSet, x: int)
    requires
        s.wf(),
        0 <= x < s.reps().len(),
    ensures
        on_path(s.parents(), x, s.reps()[x] as int),
    decreases s.reps().len() - s.ranks()[x],
{
    s.lemma_rank_bounded(x);
    let parent = s.parent@;
    if parent[x] == x {
        assert(ancestor(parent, x, 0) == x);
    } else {
        let p = parent[x] as int;
        s.lemma_rank_bounded(p);
        lemma_reaches_root(s, p);
        let k = choose|k: nat| #[trigger] ancestor(parent, p, k) == s.rep@[p] as int;
        lemma_ancestor_shift(parent, x, k);
        assert(ancestor(parent, x, k + 1) == s.rep@[x] as int);
    }
}

/// In a well-formed forest every element has a parent, its representative is a root of
/// the parent links, and that root lies on the element's path up the parent links.
pub proof fn lemma_reps_are_roots(s: &MergeFindSet, x: int)
    requires
        s.wf(),
        0 <= x < s.reps().len(),
    ensures
        s.parents().len() == s.reps().len(),
        s.parents()[s.reps()[x] as int] == s.reps()[x],
        on_path(s.parents(), x, s.reps()[x] as int),
{
    lemma_reaches_root(s, x);
}

/// A second `find` of the same element changes nothing: after the first, the element
/// and its root point at the root.
pub proof fn lemma_find_twice(s: &MergeFindSet, x: int)
    requires
        s.wf(),
        0 <= x < s.reps().len(),
    ensures
        compressed(compressed(s.parents(), x, s.reps()[x]), x, s.reps()[x]) == compressed(
            s.parents(),
            x,
            s.reps()[x],
        ),
{
    lemma_compress_twice(s.parents(), x, s.reps()[x]);
}

/// Union by rank keeps trees shallow: every root of rank `k` stands for at least `2^k`
/// elements, so no rank exceeds `log2 n`.
pub proof fn lemma_rank_logarithmic(s: &MergeFindSet, z: int)
    requires
        s.wf(),
        0 <= z < s.reps().len(),
    ensures
        pow2(s.ranks()[s.reps()[z] as int] as nat) <= class_of(s.reps(), s.reps()[z] as int).len(),
        pow2(s.ranks()[z] as nat) <= s.reps().len(),
{
    MergeFindSet::lemma_class_bounded(s.rep@, s.rep@[z] as int);
    let r = s.rep@[z] as int;
    if s.rank@[z] < s.rank@[r] {
        lemma_pow2_strictly_increases(s.rank@[z] as nat, s.rank@[r] as nat);
    }
}

/// After a union of `x` and `y`, both have the same representative.
pub proof fn lemma_union_joins(rep: Seq<usize>, rank: Seq<usize>, x: int, y: int)
    requires
        valid_reps(rep),
        rank.len() == rep.len(),
        0 <= x < rep.len(),
        0 <= y < rep.len(),
    ensures
        union_reps(rep, rank, x, y)[x] == union_reps(rep, rank, x, y)[y],
{
}

/// A union merges exactly the classes of `x` and `y`: two elements share a representative
/// afterwards iff they shared one before, or each was in the class of `x` or of `y`.
/// The result is again a valid assignment of representatives.
pub proof fn lemma_union_merges_only(rep: Seq<usize>, rank: Seq<usize>, x: int, y: int, a: int, b: int)
    requires
        valid_reps(rep),
        rank.len() == rep.len(),
        0 <= x < rep.len(),
        0 <= y < rep.len(),
        0 <= a < rep.len(),
        0 <= b < rep.len(),
    ensures
        valid_reps(union_reps(rep, rank, x, y)),
        (union_reps(rep, rank, x, y)[a] == union_reps(rep, rank, x, y)[b]) <==> (rep[a] == rep[b] || (
        (rep[a] == rep[x] || rep[a] == rep[y]) && (rep[b] == rep[x] || rep[b] == rep[y]))),
{
    let r = union_reps(rep, rank, x, y);
    if rep[x] != rep[y] {
        assert forall|z: int| 0 <= z < r.len() implies {
            &&& #[trigger] r[z] < r.len()
            &&& r[r[z] as int] == r[z]
        } by {
            assert(rep[rep[z] as int] == rep[z]);
        }
    }
}

} // verus!
