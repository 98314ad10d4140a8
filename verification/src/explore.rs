use vstd::prelude::*;
use crate::world::{Tile, Content, known_at, tile_at};

verus! {

/// The grid is `n` rows of `n` cells.
pub open spec fn square(w: Seq<Vec<Option<Tile>>>, n: int) -> bool {
    &&& w.len() == n
    &&& forall|i: int| 0 <= i < n ==> #[trigger] w[i]@.len() == n
}

/// The cell at row `i`, column `j` has not been seen yet.
pub open spec fn unknown(w: Seq<Vec<Option<Tile>>>, i: int, j: int) -> bool {
    w[i]@[j] is None
}

/// A walkable known cell next to an unseen one, on an `n` by `n` grid.
pub open spec fn frontier(w: Seq<Vec<Option<Tile>>>, c: (usize, usize), n: int) -> bool {
    let i = c.0 as int;
    let j = c.1 as int;
    &&& tile_at(w, c).walkable
    &&& {
        ||| (i > 0 && unknown(w, i - 1, j))
        ||| (j + 1 < n && unknown(w, i, j + 1))
        ||| (i + 1 < n && unknown(w, i + 1, j))
        ||| (j > 0 && unknown(w, i, j - 1))
    }
}

/// `Ok` iff the known cell `coord` is walkable and borders an unseen cell.
pub fn can_explore(map: &Vec<Vec<Option<Tile>>>, coord: (usize, usize), map_size: usize) -> (r: Result<(), ()>)
    requires
        square(map@, map_size as int),
        known_at(map@, coord),
    ensures
        r is Ok <==> frontier(map@, coord, map_size as int),
{
    let (i, j) = (coord.0, coord.1);
    if map[i][j].unwrap().walkable {
        if i > 0 && map[i - 1][j].is_none() {
            return Ok(());
        }
        if j + 1 < map_size && map[i][j + 1].is_none() {
            return Ok(());
        }
        if i + 1 < map_size && map[i + 1][j].is_none() {
            return Ok(());
        }
        if j > 0 && map[i][j - 1].is_none() {
            return Ok(());
        }
    }
    Err(())
}

/// A set of grid cells.
pub struct CellSet {
    cells: Vec<(usize, usize)>,
}

impl View for CellSet {
    type V = Set<(usize, usize)>;

    closed spec fn view(&self) -> Set<(usize, usize)> {
        Set::new(|c: (usize, usize)| self.cells@.contains(c))
    }
}

impl CellSet {
    /// An empty set.
    pub fn new() -> (s: Self)
        ensures
            s@ == Set::<(usize, usize)>::empty(),
    {
        let s = CellSet { cells: Vec::new() };
        assert(s@ =~= Set::<(usize, usize)>::empty());
        s
    }

    /// Whether `c` is in the set.
    pub fn contains(&self, c: (usize, usize)) -> (b: bool)
        ensures
            b == self@.contains(c),
    {
        let mut k: usize = 0;
        while k < self.cells.len()
            invariant
                k <= self.cells@.len(),
                forall|t: int| 0 <= t < k ==> self.cells@[t] != c,
            decreases self.cells@.len() - k,
        {
            let d = self.cells[k];
            if d.0 == c.0 && d.1 == c.1 {
                assert(self.cells@[k as int] == c);
                return true;
            }
            k = k + 1;
        }
        false
    }

    /// Adds `c` to the set.
    pub fn insert(&mut self, c: (usize, usize))
        ensures
            final(self)@ == old(self)@.insert(c),
    {
        if !self.contains(c) {
            let ghost before = self.cells@;
            self.cells.push(c);
            assert forall|d: (usize, usize)| self.cells@.contains(d) <==> (before.contains(d) || d == c) by {
                if self.cells@.contains(d) {
                    let t = choose|t: int| 0 <= t < self.cells@.len() && self.cells@[t] == d;
                    if t < before.len() {
                        assert(before[t] == d);
                    }
                }
                if before.contains(d) {
                    let t = choose|t: int| 0 <= t < before.len() && before[t] == d;
                    assert(self.cells@[t] == d);
                }
                if d == c {
                    assert(self.cells@[before.len() as int] == d);
                }
            }
        }
        assert(self@ =~= old(self)@.insert(c));
    }
}

/// `a` comes no later than `b` in row-major order.
pub open spec fn lex_le(a: (usize, usize), b: (usize, usize)) -> bool {
    a.0 < b.0 || (a.0 == b.0 && a.1 <= b.1)
}

/// The cell lies on an `n` by `n` grid.
pub open spec fn on_grid(c: (usize, usize), n: int) -> bool {
    c.0 < n && c.1 < n
}

/// A cell to explore from: not ruled out yet, known, and on the frontier.
pub open spec fn worth_exploring(w: Seq<Vec<Option<Tile>>>, skip: Set<(usize, usize)>, n: int, c: (usize, usize)) -> bool {
    &&& !skip.contains(c)
    &&& w[c.0 as int]@[c.1 as int] is Some
    &&& frontier(w, c, n)
}

/// A known cell that borders nothing unseen, or cannot be walked on.
pub open spec fn dead_end(w: Seq<Vec<Option<Tile>>>, n: int, c: (usize, usize)) -> bool {
    &&& w[c.0 as int]@[c.1 as int] is Some
    &&& !frontier(w, c, n)
}

/// The cells from `from` on, up to but not including `upto`, in row-major order.
pub open spec fn scanned(from: (usize, usize), upto: (usize, usize), n: int, d: (usize, usize)) -> bool {
    on_grid(d, n) && lex_le(from, d) && !lex_le(upto, d)
}

/// `skip` grown by the dead ends met while scanning from `from` up to `upto`.
pub open spec fn skip_after(
    w: Seq<Vec<Option<Tile>>>,
    skip: Set<(usize, usize)>,
    n: int,
    from: (usize, usize),
    upto: (usize, usize),
) -> Set<(usize, usize)> {
    skip.union(Set::new(|d: (usize, usize)| scanned(from, upto, n, d) && dead_end(w, n, d)))
}

/// Scans the map in row-major order from `from` for the first known frontier cell that is
/// not ruled out, and rules out each known dead end it passes.
pub fn next_frontier(
    map: &Vec<Vec<Option<Tile>>>,
    not_explore: &mut CellSet,
    map_size: usize,
    from: (usize, usize),
) -> (found: Option<(usize, usize)>)
    requires
        square(map@, map_size as int),
    ensures
        match found {
            Some(c) => {
                &&& on_grid(c, map_size as int)
                &&& lex_le(from, c)
                &&& worth_exploring(map@, old(not_explore)@, map_size as int, c)
                &&& forall|d: (usize, usize)|
                    scanned(from, c, map_size as int, d) ==> !worth_exploring(
                        map@,
                        old(not_explore)@,
                        map_size as int,
                        d,
                    )
                &&& final(not_explore)@ == skip_after(map@, old(not_explore)@, map_size as int, from, c)
            },
            None => {
                &&& forall|d: (usize, usize)|
                    on_grid(d, map_size as int) && lex_le(from, d) ==> !worth_exploring(
                        map@,
                        old(not_explore)@,
                        map_size as int,
                        d,
                    )
                &&& final(not_explore)@ == skip_after(
                    map@,
                    old(not_explore)@,
                    map_size as int,
                    from,
                    (map_size, 0),
                )
            },
        },
{
    let ghost w = map@;
    let ghost n = map_size as int;
    let ghost skip0 = not_explore@;
    let mut i: usize = from.0;
    let mut j: usize = from.1;
    proof {
        assert(skip_after(w, skip0, n, from, from) =~= skip0);
    }
    while i < map_size
        invariant
            w == map@,
            n == map_size,
            skip0 == old(not_explore)@,
            square(w, n),
            lex_le(from, (i, j)),
            forall|d: (usize, usize)| scanned(from, (i, j), n, d) ==> !worth_exploring(w, skip0, n, d),
            not_explore@ == skip_after(w, skip0, n, from, (i, j)),
        decreases map_size - i, map_size - j,
    {
        if j >= map_size {
            proof {
                assert(skip_after(w, skip0, n, from, (i, j)) =~= skip_after(
                    w,
                    skip0,
                    n,
                    from,
                    ((i + 1) as usize, 0),
                ));
            }
            i = i + 1;
            j = 0;
        } else {
            let c = (i, j);
            if !not_explore.contains(c) {
                match map[i][j] {
                    None => {},
                    Some(_) => {
                        match can_explore(map, c, map_size) {
                            Ok(_) => {
                                proof {
                                    assert(!skip0.contains(c));
                                }
                                return Some(c);
                            },
                            Err(_) => {
                                not_explore.insert(c);
                            },
                        }
                    },
                }
            }
            proof {
                assert(not_explore@ =~= skip_after(w, skip0, n, from, (i, (j + 1) as usize)));
            }
            j = j + 1;
        }
    }
    proof {
        assert(not_explore@ =~= skip_after(w, skip0, n, from, (map_size, 0)));
    }
    None
}

/// Holds of rocks.
pub open spec fn is_rock() -> spec_fn(Content) -> bool {
    |c: Content| c == Content::Rock
}

/// Holds of bins, crates, banks and markets: the points the road network should reach.
pub open spec fn is_point_of_interest() -> spec_fn(Content) -> bool {
    |c: Content| c == Content::Bin || c == Content::Crate || c == Content::Bank || c == Content::Market
}

/// The cells `(i, j)`, `j < m`, of row `i` that are known and whose content satisfies `p`.
pub open spec fn row_matches(row: Seq<Option<Tile>>, i: usize, p: spec_fn(Content) -> bool, m: nat) -> Seq<
    (usize, usize),
>
    decreases m,
{
    if m == 0 {
        seq![]
    } else {
        let prev = row_matches(row, i, p, (m - 1) as nat);
        let j = m - 1;
        if row[j] is Some && p(row[j]->0.content) {
            prev.push((i, j as usize))
        } else {
            prev
        }
    }
}

/// The known cells of the first `r` rows whose content satisfies `p`, in row-major order.
pub open spec fn grid_matches(w: Seq<Vec<Option<Tile>>>, p: spec_fn(Content) -> bool, r: nat) -> Seq<(usize, usize)>
    decreases r,
{
    if r == 0 {
        seq![]
    } else {
        let i = r - 1;
        grid_matches(w, p, (r - 1) as nat) + row_matches(w[i]@, i as usize, p, w[i]@.len())
    }
}

/// Appends to `rocks` every known cell holding a rock, and to `interest` every known cell
/// holding a bin, a crate, a bank or a market, both in row-major order.
pub fn find_all_content_type(
    map: &Vec<Vec<Option<Tile>>>,
    rocks: &mut Vec<(usize, usize)>,
    interest: &mut Vec<(usize, usize)>,
)
    ensures
        final(rocks)@ == old(rocks)@ + grid_matches(map@, is_rock(), map@.len()),
        final(interest)@ == old(interest)@ + grid_matches(map@, is_point_of_interest(), map@.len()),
        forall|c: (usize, usize)|
            #[trigger] final(interest)@.contains(c) <==> (old(interest)@.contains(c) || (known_at(map@, c)
                && (tile_at(map@, c).content == Content::Bin || tile_at(map@, c).content == Content::Crate
                || tile_at(map@, c).content == Content::Bank || tile_at(map@, c).content
                == Content::Market))),
        forall|c: (usize, usize)|
            #[trigger] final(rocks)@.contains(c) <==> (old(rocks)@.contains(c) || (known_at(map@, c)
                && tile_at(map@, c).content == Content::Rock)),
{
    let ghost rocks0 = rocks@;
    let ghost interest0 = interest@;
    let mut i: usize = 0;
    proof {
        assert(rocks0 + grid_matches(map@, is_rock(), 0) =~= rocks0);
        assert(interest0 + grid_matches(map@, is_point_of_interest(), 0) =~= interest0);
    }
    while i < map.len()
        invariant
            i <= map@.len(),
            rocks@ == rocks0 + grid_matches(map@, is_rock(), i as nat),
            interest@ == interest0 + grid_matches(map@, is_point_of_interest(), i as nat),
        decreases map@.len() - i,
    {
        let row = &map[i];
        let ghost r0 = rocks@;
        let ghost p0 = interest@;
        let mut j: usize = 0;
        proof {
            assert(r0 + row_matches(row@, i, is_rock(), 0) =~= r0);
            assert(p0 + row_matches(row@, i, is_point_of_interest(), 0) =~= p0);
        }
        while j < row.len()
            invariant
                j <= row@.len(),
                rocks@ == r0 + row_matches(row@, i, is_rock(), j as nat),
                interest@ == p0 + row_matches(row@, i, is_point_of_interest(), j as nat),
            decreases row@.len() - j,
        {
            match row[j] {
                None => {},
                Some(tile) => {
                    match tile.content {
                        Content::Rock => {
                            rocks.push((i, j));
                        },
                        Content::Bin => {
                            interest.push((i, j));
                        },
                        Content::Crate => {
                            interest.push((i, j));
                        },
                        Content::Bank => {
                            interest.push((i, j));
                        },
                        Content::Market => {
                            interest.push((i, j));
                        },
                        _ => {},
                    }
                },
            }
            proof {
                assert(rocks@ =~= r0 + row_matches(row@, i, is_rock(), (j + 1) as nat));
                assert(interest@ =~= p0 + row_matches(row@, i, is_point_of_interest(), (j + 1) as nat));
            }
            j = j + 1;
        }
        proof {
            assert(row@ == map@[i as int]@);
            assert(rocks@ =~= rocks0 + grid_matches(map@, is_rock(), (i + 1) as nat));
            assert(interest@ =~= interest0 + grid_matches(map@, is_point_of_interest(), (i + 1) as nat));
        }
        i = i + 1;
    }
    proof {
        assert forall|r: int| 0 <= r < map@.len() implies #[trigger] map@[r]@.len() <= usize::MAX by {
            assert(map@[r].len() == map@[r]@.len());
        }
        lemma_points_of_interest_found(map@);
        lemma_rocks_found(map@);
        let found = grid_matches(map@, is_point_of_interest(), map@.len());
        let stones = grid_matches(map@, is_rock(), map@.len());
        assert forall|c: (usize, usize)| #[trigger] interest@.contains(c) <==> (interest0.contains(c)
            || found.contains(c)) by {
            if interest@.contains(c) {
                let k = choose|k: int| 0 <= k < interest@.len() && interest@[k] == c;
                if k >= interest0.len() {
                    assert(found[k - interest0.len()] == c);
                }
            }
            if interest0.contains(c) {
                let k = choose|k: int| 0 <= k < interest0.len() && interest0[k] == c;
                assert(interest@[k] == c);
            }
            if found.contains(c) {
                let k = choose|k: int| 0 <= k < found.len() && found[k] == c;
                assert(interest@[k + interest0.len()] == c);
            }
        }
        assert forall|c: (usize, usize)| #[trigger] rocks@.contains(c) <==> (rocks0.contains(c)
            || stones.contains(c)) by {
            if rocks@.contains(c) {
                let k = choose|k: int| 0 <= k < rocks@.len() && rocks@[k] == c;
                if k >= rocks0.len() {
                    assert(stones[k - rocks0.len()] == c);
                }
            }
            if rocks0.contains(c) {
                let k = choose|k: int| 0 <= k < rocks0.len() && rocks0[k] == c;
                assert(rocks@[k] == c);
            }
            if stones.contains(c) {
                let k = choose|k: int| 0 <= k < stones.len() && stones[k] == c;
                assert(rocks@[k + rocks0.len()] == c);
            }
        }
    }
}

/// The known cell `c` of `w` holds content satisfying `p`.
pub open spec fn holds_match(w: Seq<Vec<Option<Tile>>>, p: spec_fn(Content) -> bool, c: (usize, usize)) -> bool {
    known_at(w, c) && p(tile_at(w, c).content)
}

/// `a` comes strictly before `b` in row-major order.
pub open spec fn row_major_before(a: (usize, usize), b: (usize, usize)) -> bool {
    a.0 < b.0 || (a.0 == b.0 && a.1 < b.1)
}

proof fn lemma_row_matches(row: Seq<Option<Tile>>, i: usize, p: spec_fn(Content) -> bool, m: nat)
    requires
        m <= row.len(),
        row.len() <= usize::MAX,
    ensures
        forall|c: (usize, usize)|
            #[trigger] row_matches(row, i, p, m).contains(c) <==> (c.0 == i && c.1 < m && row[c.1 as int] is Some
                && p(row[c.1 as int]->0.content)),
        forall|a: int, b: int|
            0 <= a < b < row_matches(row, i, p, m).len() ==> row_matches(row, i, p, m)[a].0 == i
                && row_matches(row, i, p, m)[b].0 == i && row_matches(row, i, p, m)[a].1 < row_matches(
                row,
                i,
                p,
                m,
            )[b].1,
        forall|a: int| 0 <= a < row_matches(row, i, p, m).len() ==> #[trigger] row_matches(row, i, p, m)[a].1 < m,
        forall|a: int| 0 <= a < row_matches(row, i, p, m).len() ==> #[trigger] row_matches(row, i, p, m)[a].0 == i,
    decreases m,
{
    if m > 0 {
        let prev = row_matches(row, i, p, (m - 1) as nat);
        lemma_row_matches(row, i, p, (m - 1) as nat);
        let cur = row_matches(row, i, p, m);
        let j = m - 1;
        assert forall|c: (usize, usize)| #[trigger] cur.contains(c) <==> (c.0 == i && c.1 < m && row[c.1 as int] is Some
            && p(row[c.1 as int]->0.content)) by {
            if row[j] is Some && p(row[j]->0.content) {
                assert(cur == prev.push((i, j as usize)));
                if cur.contains(c) {
                    let t = choose|t: int| 0 <= t < cur.len() && cur[t] == c;
                    if t < prev.len() {
                        assert(prev[t] == c);
                        assert(prev.contains(c));
                    }
                }
                if c.0 == i && c.1 < m && row[c.1 as int] is Some && p(row[c.1 as int]->0.content) {
                    if c.1 < j {
                        assert(prev.contains(c));
                        let t = choose|t: int| 0 <= t < prev.len() && prev[t] == c;
                        assert(cur[t] == c);
                    } else {
                        assert(cur[prev.len() as int] == c);
                    }
                }
            } else {
                assert(cur == prev);
            }
        }
        if row[j] is Some && p(row[j]->0.content) {
            assert(cur == prev.push((i, j as usize)));
            assert forall|a: int| 0 <= a < cur.len() implies #[trigger] cur[a].1 < m && cur[a].0 == i by {
                if a < prev.len() {
                    assert(cur[a] == prev[a]);
                }
            }
            assert forall|a: int, b: int| 0 <= a < b < cur.len() implies cur[a].0 == i && cur[b].0 == i && cur[a].1
                < cur[b].1 by {
                assert(cur[a] == prev[a]);
                assert(prev[a].1 < j);
                if b < prev.len() {
                    assert(cur[b] == prev[b]);
                }
            }
        }
    }
}

proof fn lemma_grid_matches(w: Seq<Vec<Option<Tile>>>, p: spec_fn(Content) -> bool, r: nat)
    requires
        r <= w.len(),
        w.len() <= usize::MAX,
        forall|i: int| 0 <= i < w.len() ==> #[trigger] w[i]@.len() <= usize::MAX,
    ensures
        forall|c: (usize, usize)|
            #[trigger] grid_matches(w, p, r).contains(c) <==> (c.0 < r && holds_match(w, p, c)),
        forall|a: int, b: int|
            0 <= a < b < grid_matches(w, p, r).len() ==> row_major_before(
                grid_matches(w, p, r)[a],
                grid_matches(w, p, r)[b],
            ),
        forall|a: int| 0 <= a < grid_matches(w, p, r).len() ==> #[trigger] grid_matches(w, p, r)[a].0 < r,
    decreases r,
{
    if r > 0 {
        let i = r - 1;
        lemma_grid_matches(w, p, (r - 1) as nat);
        let prev = grid_matches(w, p, (r - 1) as nat);
        let row = row_matches(w[i]@, i as usize, p, w[i]@.len());
        lemma_row_matches(w[i]@, i as usize, p, w[i]@.len());
        let cur = grid_matches(w, p, r);
        assert(cur == prev + row);
        assert forall|c: (usize, usize)| #[trigger] cur.contains(c) <==> (c.0 < r && holds_match(w, p, c)) by {
            if cur.contains(c) {
                let t = choose|t: int| 0 <= t < cur.len() && cur[t] == c;
                if t < prev.len() {
                    assert(prev[t] == c);
                    assert(prev.contains(c));
                } else {
                    assert(row[t - prev.len()] == c);
                    assert(row.contains(c));
                }
            }
            if c.0 < r && holds_match(w, p, c) {
                if c.0 < i {
                    assert(prev.contains(c));
                    let t = choose|t: int| 0 <= t < prev.len() && prev[t] == c;
                    assert(cur[t] == c);
                } else {
                    assert(row.contains(c));
                    let t = choose|t: int| 0 <= t < row.len() && row[t] == c;
                    assert(cur[prev.len() + t] == c);
                }
            }
        }
        assert forall|a: int, b: int| 0 <= a < b < cur.len() implies row_major_before(cur[a], cur[b]) by {
            if b < prev.len() {
                assert(cur[a] == prev[a] && cur[b] == prev[b]);
            } else if a < prev.len() {
                assert(cur[a] == prev[a]);
                assert(cur[b] == row[b - prev.len()]);
                assert(prev[a].0 < i);
            } else {
                assert(cur[a] == row[a - prev.len()]);
                assert(cur[b] == row[b - prev.len()]);
            }
        }
        assert forall|a: int| 0 <= a < cur.len() implies #[trigger] cur[a].0 < r by {
            if a < prev.len() {
                assert(cur[a] == prev[a]);
            } else {
                assert(cur[a] == row[a - prev.len()]);
            }
        }
    }
}

/// The rows of `w` and their lengths fit in a `usize`, as those of any vector do.
pub open spec fn grid_fits(w: Seq<Vec<Option<Tile>>>) -> bool {
    &&& w.len() <= usize::MAX
    &&& forall|i: int| 0 <= i < w.len() ==> #[trigger] w[i]@.len() <= usize::MAX
}

/// The points of interest found on a map are exactly its known cells holding a bin, a
/// crate, a bank or a market, each once, in row-major order.
pub proof fn lemma_points_of_interest_found(w: Seq<Vec<Option<Tile>>>)
    requires
        grid_fits(w),
    ensures
        forall|c: (usize, usize)|
            #[trigger] grid_matches(w, is_point_of_interest(), w.len()).contains(c) <==> (known_at(w, c) && (
            tile_at(w, c).content == Content::Bin || tile_at(w, c).content == Content::Crate || tile_at(
                w,
                c,
            ).content == Content::Bank || tile_at(w, c).content == Content::Market)),
        forall|a: int, b: int|
            0 <= a < b < grid_matches(w, is_point_of_interest(), w.len()).len() ==> row_major_before(
                grid_matches(w, is_point_of_interest(), w.len())[a],
                grid_matches(w, is_point_of_interest(), w.len())[b],
            ),
{
    lemma_grid_matches(w, is_point_of_interest(), w.len());
}

/// The rocks found on a map are exactly its known cells holding a rock, each once, in
/// row-major order.
pub proof fn lemma_rocks_found(w: Seq<Vec<Option<Tile>>>)
    requires
        grid_fits(w),
    ensures
        forall|c: (usize, usize)|
            #[trigger] grid_matches(w, is_rock(), w.len()).contains(c) <==> (known_at(w, c) && tile_at(w, c).content
                == Content::Rock),
        forall|a: int, b: int|
            0 <= a < b < grid_matches(w, is_rock(), w.len()).len() ==> row_major_before(
                grid_matches(w, is_rock(), w.len())[a],
                grid_matches(w, is_rock(), w.len())[b],
            ),
{
    lemma_grid_matches(w, is_rock(), w.len());
}

} // verus!
