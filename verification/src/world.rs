use vstd::prelude::*;

verus! {

/// The kind of ground a tile has.
#[derive(Clone, Copy, Debug, PartialEq, Eq, Structural)]
pub enum TileType {
    DeepWater,
    ShallowWater,
    Sand,
    Grass,
    Street,
    Hill,
    Mountain,
    Snow,
    Lava,
    Teleport(bool),
    Wall,
}

/// What stands on a tile.
#[derive(Clone, Copy, Debug, PartialEq, Eq, Structural)]
pub enum Content {
    Rock,
    Tree,
    Garbage,
    Fire,
    Coin,
    Bin,
    Crate,
    Bank,
    Water,
    Market,
    Fish,
    Building,
    Bush,
    JollyBlock,
    Scarecrow,
    NoContent,
}

/// A tile as the robot sees it: its ground, its content, and whether it can be walked on.
#[derive(Clone, Copy, Debug, PartialEq, Eq, Structural)]
pub struct Tile {
    pub tile_type: TileType,
    pub content: Content,
    pub walkable: bool,
}

/// A step of one cell on the grid.
#[derive(Clone, Copy, Debug, PartialEq, Eq, Structural)]
pub enum Direction {
    Up,
    Down,
    Left,
    Right,
}

/// Moving from `from` to `to` takes more than one straight step.
pub open spec fn needs_teleport(from: (usize, usize), to: (usize, usize)) -> bool {
    to.0 != from.0 && to.1 != from.1
}

/// The direction in which `to` lies from `from`: rows first, then columns; `Right` when
/// the cells coincide.
pub open spec fn heading(from: (usize, usize), to: (usize, usize)) -> Direction {
    if to.0 < from.0 {
        Direction::Up
    } else if to.0 > from.0 {
        Direction::Down
    } else if to.1 < from.1 {
        Direction::Left
    } else {
        Direction::Right
    }
}

/// The direction `next_direction` gives: `Up` when a teleport is needed, else the heading.
pub open spec fn step_direction(from: (usize, usize), to: (usize, usize)) -> Direction {
    if needs_teleport(from, to) {
        Direction::Up
    } else {
        heading(from, to)
    }
}

/// The direction of the step from `robot_coord` to `dir`; raises `do_teleport` when the
/// two cells differ in both row and column.
pub fn next_direction(robot_coord: (usize, usize), dir: (usize, usize), do_teleport: &mut bool) -> (d: Direction)
    ensures
        d == step_direction(robot_coord, dir),
        *final(do_teleport) == (*old(do_teleport) || needs_teleport(robot_coord, dir)),
{
    let mut direction: Direction = Direction::Up;
    if dir.0 != robot_coord.0 && dir.1 != robot_coord.1 {
        *do_teleport = true;
    } else if dir.0 < robot_coord.0 {
        direction = Direction::Up;
    } else if dir.0 > robot_coord.0 {
        direction = Direction::Down;
    } else if dir.1 < robot_coord.1 {
        direction = Direction::Left;
    } else {
        direction = Direction::Right;
    }
    direction
}

/// The direction in which `target` lies from `robot_coord`, never a teleport.
pub fn facing(robot_coord: (usize, usize), target: (usize, usize)) -> (d: Direction)
    ensures
        d == heading(robot_coord, target),
{
    if target.0 < robot_coord.0 {
        Direction::Up
    } else if target.0 > robot_coord.0 {
        Direction::Down
    } else if target.1 < robot_coord.1 {
        Direction::Left
    } else {
        Direction::Right
    }
}

/// The cell `c` lies on the grid `w` and its tile is known.
pub open spec fn known_at(w: Seq<Vec<Option<Tile>>>, c: (usize, usize)) -> bool {
    &&& c.0 < w.len()
    &&& c.1 < w[c.0 as int]@.len()
    &&& w[c.0 as int]@[c.1 as int] is Some
}

/// The known tile at cell `c`.
pub open spec fn tile_at(w: Seq<Vec<Option<Tile>>>, c: (usize, usize)) -> Tile {
    w[c.0 as int]@[c.1 as int]->0
}

/// A road can be laid on this kind of ground.
pub open spec fn buildable(t: TileType) -> bool {
    t == TileType::Grass || t == TileType::Hill || t == TileType::Sand || t == TileType::Snow
}

/// Whether a road can be laid at cell `(i, j)` of the robot's map; never without a map.
pub open spec fn road_allowed(map: Option<Vec<Vec<Option<Tile>>>>, c: (usize, usize)) -> bool {
    match map {
        Some(w) => buildable(tile_at(w@, c).tile_type),
        None => false,
    }
}

/// Every cell that is read of the robot's map, if there is one, is known.
pub open spec fn readable(map: Option<Vec<Vec<Option<Tile>>>>, c: (usize, usize)) -> bool {
    match map {
        Some(w) => known_at(w@, c),
        None => true,
    }
}

/// Tells whether a road can be laid at `(i, j)`: on grass, hill, sand or snow.
pub fn can_build_road(map: &Option<Vec<Vec<Option<Tile>>>>, i: usize, j: usize) -> (ok: bool)
    requires
        readable(*map, (i, j)),
    ensures
        ok == road_allowed(*map, (i, j)),
        map is Some ==> (ok <==> ({
            let t = tile_at(map->0@, (i, j)).tile_type;
            t == TileType::Grass || t == TileType::Hill || t == TileType::Sand || t
                == TileType::Snow
        })),
        map is None ==> !ok,
{
    match map {
        None => {},
        Some(w) => {
            let t = w[i][j].unwrap().tile_type;
            if t == TileType::Grass || t == TileType::Hill || t == TileType::Sand || t == TileType::Snow {
                return true;
            }
        },
    }
    false
}

/// The cells of the first `n` steps of `actions` on which a road can be laid, each with
/// the direction of the step that reaches it (from `start` for the first step).
pub open spec fn road_steps(
    map: Option<Vec<Vec<Option<Tile>>>>,
    start: (usize, usize),
    actions: Seq<(usize, usize)>,
    n: nat,
) -> (Seq<(usize, usize)>, Seq<(Direction, usize)>)
    decreases n,
{
    if n == 0 {
        (seq![], seq![])
    } else {
        let prev = road_steps(map, start, actions, (n - 1) as nat);
        let i = n - 1;
        let from = if i == 0 {
            start
        } else {
            actions[i - 1]
        };
        if road_allowed(map, actions[i]) {
            (prev.0.push(actions[i]), prev.1.push((step_direction(from, actions[i]), 1usize)))
        } else {
            prev
        }
    }
}

/// The steps of a path but its last, as cells and directions, where a road can be laid.
pub open spec fn road_plan(
    map: Option<Vec<Vec<Option<Tile>>>>,
    start: (usize, usize),
    actions: Seq<(usize, usize)>,
) -> (Seq<(usize, usize)>, Seq<(Direction, usize)>) {
    if actions.len() == 0 {
        (seq![], seq![])
    } else {
        road_steps(map, start, actions, (actions.len() - 1) as nat)
    }
}

/// Turns a path from `start` into the cells to pave and the direction of the step to
/// each; the last cell of the path is left out, and so are cells where no road can go.
pub fn charted_to_coord_dir(
    map: &Option<Vec<Vec<Option<Tile>>>>,
    start: (usize, usize),
    actions: Vec<(usize, usize)>,
) -> (plan: (Vec<(usize, usize)>, Vec<(Direction, usize)>))
    requires
        forall|k: int| 0 <= k < actions@.len() - 1 ==> readable(*map, #[trigger] actions@[k]),
    ensures
        (plan.0@, plan.1@) == road_plan(*map, start, actions@),
{
    let mut coords: Vec<(usize, usize)> = Vec::new();
    let mut directions: Vec<(Direction, usize)> = Vec::new();
    let mut prev = start;
    let mut i: usize = 0;
    let mut do_teleport = false;
    while actions.len() > 0 && i < actions.len() - 1
        invariant
            forall|k: int| 0 <= k < actions@.len() - 1 ==> readable(*map, #[trigger] actions@[k]),
            actions@.len() == 0 ==> i == 0,
            actions@.len() > 0 ==> i <= actions@.len() - 1,
            prev == (if i == 0 {
                start
            } else {
                actions@[i - 1]
            }),
            (coords@, directions@) == road_steps(*map, start, actions@, i as nat),
        decreases actions@.len() - i,
    {
        let (next_i, next_j) = (actions[i].0, actions[i].1);
        if can_build_road(map, next_i, next_j) {
            let next_dir = next_direction(prev, actions[i], &mut do_teleport);
            coords.push((next_i, next_j));
            directions.push((next_dir, 1usize));
        }
        prev = actions[i];
        i = i + 1;
    }
    (coords, directions)
}

proof fn lemma_road_steps_aligned(
    map: Option<Vec<Vec<Option<Tile>>>>,
    start: (usize, usize),
    actions: Seq<(usize, usize)>,
    n: nat,
)
    requires
        n <= actions.len(),
    ensures
        road_steps(map, start, actions, n).0.len() == road_steps(map, start, actions, n).1.len(),
        forall|k: int|
            0 <= k < road_steps(map, start, actions, n).0.len() ==> road_allowed(
                map,
                #[trigger] road_steps(map, start, actions, n).0[k],
            ) && road_steps(map, start, actions, n).1[k].1 == 1,
    decreases n,
{
    if n > 0 {
        lemma_road_steps_aligned(map, start, actions, (n - 1) as nat);
        let prev = road_steps(map, start, actions, (n - 1) as nat);
        let cur = road_steps(map, start, actions, n);
        assert forall|k: int| 0 <= k < cur.0.len() implies road_allowed(map, #[trigger] cur.0[k]) && cur.1[k].1
            == 1 by {
            let i = n - 1;
            if road_allowed(map, actions[i]) {
                if k < prev.0.len() {
                    assert(cur.0[k] == prev.0[k]);
                    assert(cur.1[k] == prev.1[k]);
                } else {
                    assert(cur.0[k] == actions[i]);
                    assert(cur.1[k].1 == 1);
                }
            } else {
                assert(cur == prev);
            }
        }
    }
}

/// A road plan pairs each cell with the direction of one step to it, and holds only cells
/// where a road can be laid.
pub proof fn lemma_road_plan_aligned(
    map: Option<Vec<Vec<Option<Tile>>>>,
    start: (usize, usize),
    actions: Seq<(usize, usize)>,
)
    ensures
        road_plan(map, start, actions).0.len() == road_plan(map, start, actions).1.len(),
        forall|k: int|
            0 <= k < road_plan(map, start, actions).0.len() ==> road_allowed(
                map,
                #[trigger] road_plan(map, start, actions).0[k],
            ) && road_plan(map, start, actions).1[k].1 == 1,
{
    if actions.len() > 0 {
        lemma_road_steps_aligned(map, start, actions, (actions.len() - 1) as nat);
    }
}

/// The cell `c` of `w` holds a street.
pub open spec fn street_at(w: Seq<Vec<Option<Tile>>>, c: (usize, usize)) -> bool {
    tile_at(w, c).tile_type == TileType::Street
}

/// How many cells at the front of `cs` are streets.
pub open spec fn leading_streets(w: Seq<Vec<Option<Tile>>>, cs: Seq<(usize, usize)>) -> nat
    decreases cs.len(),
{
    if cs.len() > 0 && street_at(w, cs[0]) {
        1 + leading_streets(w, cs.drop_first())
    } else {
        0
    }
}

/// Every cell of `cs` up to the first that is no street is a known tile of `w`.
pub open spec fn streets_readable(w: Seq<Vec<Option<Tile>>>, cs: Seq<(usize, usize)>) -> bool
    decreases cs.len(),
{
    cs.len() > 0 ==> known_at(w, cs[0]) && (street_at(w, cs[0]) ==> streets_readable(w, cs.drop_first()))
}

/// How many leading cells `remove_roads` drops: the leading streets, none without a map.
pub open spec fn paved_prefix(map: Option<Vec<Vec<Option<Tile>>>>, cs: Seq<(usize, usize)>) -> nat {
    match map {
        Some(w) => leading_streets(w@, cs),
        None => 0,
    }
}

proof fn lemma_leading_streets(w: Seq<Vec<Option<Tile>>>, cs: Seq<(usize, usize)>, k: int)
    requires
        0 <= k <= cs.len(),
        forall|t: int| 0 <= t < k ==> street_at(w, #[trigger] cs[t]),
    ensures
        leading_streets(w, cs) == k + leading_streets(w, cs.skip(k)),
    decreases k,
{
    if k > 0 {
        lemma_leading_streets(w, cs.drop_first(), k - 1);
        assert(cs.drop_first().skip(k - 1) =~= cs.skip(k));
    } else {
        assert(cs.skip(0) =~= cs);
    }
}

proof fn lemma_streets_readable(w: Seq<Vec<Option<Tile>>>, cs: Seq<(usize, usize)>, k: int)
    requires
        0 <= k <= cs.len(),
        streets_readable(w, cs),
        forall|t: int| 0 <= t < k ==> street_at(w, #[trigger] cs[t]),
    ensures
        streets_readable(w, cs.skip(k)),
    decreases k,
{
    if k > 0 {
        lemma_streets_readable(w, cs.drop_first(), k - 1);
        assert(cs.drop_first().skip(k - 1) =~= cs.skip(k));
    } else {
        assert(cs.skip(0) =~= cs);
    }
}

/// Drops the planned cells at the front that are already streets, with their directions.
pub fn remove_roads(
    map: &Option<Vec<Vec<Option<Tile>>>>,
    coords: &mut Vec<(usize, usize)>,
    directions: &mut Vec<(Direction, usize)>,
)
    requires
        match *map {
            Some(w) => streets_readable(w@, old(coords)@),
            None => true,
        },
        paved_prefix(*map, old(coords)@) <= old(directions)@.len(),
    ensures
        final(coords)@ == old(coords)@.skip(paved_prefix(*map, old(coords)@) as int),
        final(directions)@ == old(directions)@.skip(paved_prefix(*map, old(coords)@) as int),
{
    let ghost c0 = coords@;
    let ghost d0 = directions@;
    match map {
        None => {
            assert(coords@ =~= c0.skip(0));
            assert(directions@ =~= d0.skip(0));
        },
        Some(w) => {
            let mut exit = false;
            let ghost mut k: int = 0;
            proof {
                assert(c0.skip(0) =~= c0);
                assert(d0.skip(0) =~= d0);
            }
            while !exit && coords.len() > 0
                invariant
                    0 <= k <= c0.len(),
                    forall|t: int| 0 <= t < k ==> street_at(w@, #[trigger] c0[t]),
                    streets_readable(w@, c0),
                    leading_streets(w@, c0) <= d0.len(),
                    coords@ == c0.skip(k),
                    directions@ == d0.skip(k),
                    exit ==> k < c0.len() && !street_at(w@, c0[k]),
                decreases c0.len() - k + (if exit {
                    0int
                } else {
                    1
                }),
            {
                proof {
                    lemma_streets_readable(w@, c0, k);
                    lemma_leading_streets(w@, c0, k);
                    assert(coords@[0] == c0[k]);
                }
                let c = coords[0];
                if w[c.0][c.1].unwrap().tile_type == TileType::Street {
                    coords.remove(0);
                    directions.remove(0);
                    proof {
                        assert(coords@ =~= c0.skip(k + 1));
                        assert(directions@ =~= d0.skip(k + 1));
                        k = k + 1;
                    }
                } else {
                    exit = true;
                }
            }
            proof {
                lemma_leading_streets(w@, c0, k);
                if exit {
                    assert(c0.skip(k)[0] == c0[k]);
                } else {
                    assert(k == c0.len());
                }
                assert(leading_streets(w@, c0.skip(k)) == 0);
            }
        },
    }
}

/// A road can be laid on grass, hill, sand and snow, and on no other ground; on a known
/// cell of the robot's map exactly when its ground is one of these.
pub proof fn lemma_buildable_grounds(map: Option<Vec<Vec<Option<Tile>>>>, c: (usize, usize))
    ensures
        buildable(TileType::Grass),
        buildable(TileType::Hill),
        buildable(TileType::Sand),
        buildable(TileType::Snow),
        !buildable(TileType::DeepWater),
        !buildable(TileType::ShallowWater),
        !buildable(TileType::Street),
        !buildable(TileType::Mountain),
        !buildable(TileType::Lava),
        !buildable(TileType::Teleport(true)),
        !buildable(TileType::Teleport(false)),
        !buildable(TileType::Wall),
        map is None ==> !road_allowed(map, c),
        map is Some ==> (road_allowed(map, c) <==> (tile_at(map->0@, c).tile_type == TileType::Grass || tile_at(
            map->0@,
            c,
        ).tile_type == TileType::Hill || tile_at(map->0@, c).tile_type == TileType::Sand || tile_at(map->0@, c).tile_type
            == TileType::Snow)),
{
}

} // verus!
