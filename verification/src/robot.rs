use vstd::prelude::*;
use crate::world::{Tile, Direction};
use crate::spanning::Connection;
use crate::explore::square;

verus! {

/// What the robot is busy with.
#[derive(Clone, Copy, Debug, PartialEq, Eq, Structural)]
pub enum RobotMode {
    Discover,
    Operation,
    Recharge,
    Build,
}

/// The work a tick calls for.
#[derive(Clone, Copy, Debug, PartialEq, Eq, Structural)]
pub enum TickAction {
    /// Explore the world until all of it that can be reached has been seen.
    Explore,
    /// Plan the road network over the points of interest, then collect rocks.
    PlanNetwork,
    /// Build the next road of the network.
    BuildRoad,
    /// Nothing is left to build: show the map and stop.
    Finish,
    /// Nothing to do this tick.
    Wait,
}

/// The work of one tick in `mode`, and the mode after it.  Exploring ends only once the
/// robot has switched to operation; planning is followed by building, which goes on while
/// some road is planned and some rock is known; a recharge ends once the robot has enough
/// energy.
pub open spec fn tick_spec(mode: RobotMode, roads_left: nat, rocks_left: nat, enough_energy: bool) -> (TickAction, RobotMode) {
    match mode {
        RobotMode::Discover => (TickAction::Explore, RobotMode::Operation),
        RobotMode::Operation => (TickAction::PlanNetwork, RobotMode::Build),
        RobotMode::Build => if roads_left > 0 && rocks_left > 0 {
            (TickAction::BuildRoad, RobotMode::Build)
        } else {
            (TickAction::Finish, RobotMode::Build)
        },
        RobotMode::Recharge => if enough_energy {
            (TickAction::Wait, RobotMode::Discover)
        } else {
            (TickAction::Wait, RobotMode::Recharge)
        },
    }
}

/// Decides the work of one tick from the mode, the numbers of roads still planned and of
/// rocks still known, and whether the robot has enough energy.
pub fn plan_tick(mode: RobotMode, roads_left: usize, rocks_left: usize, enough_energy: bool) -> (plan: (
    TickAction,
    RobotMode,
))
    ensures
        plan == tick_spec(mode, roads_left as nat, rocks_left as nat, enough_energy),
        mode == RobotMode::Build ==> (plan.0 == TickAction::BuildRoad <==> (roads_left > 0
            && rocks_left > 0)),
{
    match mode {
        RobotMode::Discover => (TickAction::Explore, RobotMode::Operation),
        RobotMode::Operation => (TickAction::PlanNetwork, RobotMode::Build),
        RobotMode::Build => {
            if roads_left != 0 && rocks_left != 0 {
                (TickAction::BuildRoad, RobotMode::Build)
            } else {
                (TickAction::Finish, RobotMode::Build)
            }
        },
        RobotMode::Recharge => {
            if enough_energy {
                (TickAction::Wait, RobotMode::Discover)
            } else {
                (TickAction::Wait, RobotMode::Recharge)
            }
        },
    }
}

/// What an exploration step reported.
#[derive(Clone, Copy, Debug, PartialEq, Eq, Structural)]
pub enum ExploreOutcome {
    MapAllExplored,
    RadiusExplored,
    OtherResult,
    MaxEnergyReached,
    RestOfMapIsUnreachable,
    NotEnoughEnergy,
    OtherLibError,
    OtherError,
}

/// What exploring does after a step.
#[derive(Clone, Copy, Debug, PartialEq, Eq, Structural)]
pub enum ExploreAction {
    /// Everything is explored: switch to operation.
    SwitchToOperation,
    /// Walk to the next cell to explore from.
    DiscoverNext,
    /// Recharge the robot's energy.
    Recharge,
    /// Report the error and go on.
    Report,
    /// Go on.
    Continue,
}

/// The reaction to each exploration outcome.
pub open spec fn explore_spec(outcome: ExploreOutcome) -> ExploreAction {
    match outcome {
        ExploreOutcome::MapAllExplored => ExploreAction::SwitchToOperation,
        ExploreOutcome::RadiusExplored => ExploreAction::DiscoverNext,
        ExploreOutcome::OtherResult => ExploreAction::Continue,
        ExploreOutcome::MaxEnergyReached => ExploreAction::Recharge,
        ExploreOutcome::RestOfMapIsUnreachable => ExploreAction::DiscoverNext,
        ExploreOutcome::NotEnoughEnergy => ExploreAction::Recharge,
        ExploreOutcome::OtherLibError => ExploreAction::Report,
        ExploreOutcome::OtherError => ExploreAction::Report,
    }
}

/// Decides how exploring goes on after a step.
pub fn explore_step(outcome: ExploreOutcome) -> (action: ExploreAction)
    ensures
        action == explore_spec(outcome),
{
    match outcome {
        ExploreOutcome::MapAllExplored => ExploreAction::SwitchToOperation,
        ExploreOutcome::RadiusExplored => ExploreAction::DiscoverNext,
        ExploreOutcome::OtherResult => ExploreAction::Continue,
        ExploreOutcome::MaxEnergyReached => ExploreAction::Recharge,
        ExploreOutcome::RestOfMapIsUnreachable => ExploreAction::DiscoverNext,
        ExploreOutcome::NotEnoughEnergy => ExploreAction::Recharge,
        ExploreOutcome::OtherLibError => ExploreAction::Report,
        ExploreOutcome::OtherError => ExploreAction::Report,
    }
}

/// Collecting goes on for at most five rocks, while the backpack holds at most twenty
/// rocks and some rock is still known.
pub fn keep_collecting(count: usize, rocks: usize, pending: usize) -> (go_on: bool)
    ensures
        go_on == (count < 5 && rocks <= 20 && pending > 0),
{
    count < 5 && rocks <= 20 && pending > 0
}

/// The cell at row `i`, column `j` has been seen.
pub open spec fn seen(w: Seq<Vec<Option<Tile>>>, i: int, j: int) -> bool {
    w[i]@[j] is Some
}

/// A road of cost 100 from `start` to `end`.
pub open spec fn long_road(start: (usize, usize), end: (usize, usize)) -> Connection {
    Connection { cost: 100, start, end }
}

/// `c` if `cond` holds, else nothing.
pub open spec fn when(cond: bool, c: Connection) -> Seq<Connection> {
    if cond {
        seq![c]
    } else {
        seq![]
    }
}

/// The long roads between the corner cells `(4, 4)`, `(4, m)`, `(m, 4)` and `(m, m)`,
/// `m = n - 4`, added to the network when the corners they join have been seen.
pub open spec fn corner_roads(w: Seq<Vec<Option<Tile>>>, n: int) -> Seq<Connection> {
    let m = n - 4;
    let lo = 4usize;
    let hi = m as usize;
    when(seen(w, 4, 4) && seen(w, m, m), long_road((lo, lo), (hi, hi))) + when(
        seen(w, 4, m) && seen(w, m, 4),
        long_road((lo, hi), (hi, lo)),
    ) + when(seen(w, 4, 4) && seen(w, m, 4), long_road((lo, hi), (hi, lo))) + when(
        seen(w, 4, m) && seen(w, m, m),
        long_road((lo, hi), (hi, hi)),
    ) + when(seen(w, 4, 4) && seen(w, 4, m), long_road((lo, hi), (lo, hi))) + when(
        seen(w, m, 4) && seen(w, m, m),
        long_road((hi, lo), (hi, hi)),
    )
}

/// Appends to the network the long roads between seen corners of the map.
pub fn add_corner_roads(map: &Vec<Vec<Option<Tile>>>, map_size: usize, mst: &mut Vec<Connection>)
    requires
        square(map@, map_size as int),
        map_size > 4,
    ensures
        final(mst)@ == old(mst)@ + corner_roads(map@, map_size as int),
{
    let w = map;
    let ghost m0 = mst@;
    let m = map_size - 4;
    if w[4][4].is_some() && w[m][m].is_some() {
        mst.push(Connection { cost: 100, start: (4, 4), end: (m, m) });
    }
    if w[4][m].is_some() && w[m][4].is_some() {
        mst.push(Connection { cost: 100, start: (4, m), end: (m, 4) });
    }
    if w[4][4].is_some() && w[m][4].is_some() {
        mst.push(Connection { cost: 100, start: (4, m), end: (m, 4) });
    }
    if w[4][m].is_some() && w[m][m].is_some() {
        mst.push(Connection { cost: 100, start: (4, m), end: (m, m) });
    }
    if w[4][4].is_some() && w[4][m].is_some() {
        mst.push(Connection { cost: 100, start: (4, m), end: (4, m) });
    }
    if w[m][4].is_some() && w[m][m].is_some() {
        mst.push(Connection { cost: 100, start: (m, 4), end: (m, m) });
    }
    assert(mst@ =~= m0 + corner_roads(map@, map_size as int));
}

/// After an unload that changed nothing, drops the first planned cell, which cannot be
/// cleared; returns whether it did.
pub fn drop_blocked_cell(
    unload_changed_nothing: bool,
    coords: &mut Vec<(usize, usize)>,
    directions: &mut Vec<(Direction, usize)>,
) -> (dropped: bool)
    requires
        old(coords)@.len() > 0 ==> old(directions)@.len() > 0,
    ensures
        dropped == (unload_changed_nothing && old(coords)@.len() > 0),
        dropped ==> final(coords)@ == old(coords)@.drop_first() && final(directions)@ == old(directions)@.drop_first(),
        !dropped ==> final(coords)@ == old(coords)@ && final(directions)@ == old(directions)@,
{
    if unload_changed_nothing && coords.len() > 0 {
        coords.remove(0);
        directions.remove(0);
        assert(coords@ =~= old(coords)@.drop_first());
        assert(directions@ =~= old(directions)@.drop_first());
        true
    } else {
        false
    }
}

/// After a failed street that was neither short of rocks or energy nor blocked: when the
/// backpack holds no rock, rocks must be collected (the result is `true`); otherwise, when
/// no planned cell turned out paved, the first planned cell is dropped.
pub fn settle_failed_street(
    rocks: usize,
    planned_before: usize,
    coords: &mut Vec<(usize, usize)>,
    directions: &mut Vec<(Direction, usize)>,
) -> (collect: bool)
    requires
        rocks != 0 && old(coords)@.len() == planned_before ==> old(coords)@.len() > 0 && old(directions)@.len() > 0,
    ensures
        collect == (rocks == 0),
        !collect && old(coords)@.len() == planned_before ==> final(coords)@ == old(coords)@.drop_first()
            && final(directions)@ == old(directions)@.drop_first(),
        collect || old(coords)@.len() != planned_before ==> final(coords)@ == old(coords)@ && final(directions)@ == old(directions)@,
{
    if rocks == 0usize {
        true
    } else {
        if coords.len() == planned_before {
            coords.remove(0);
            directions.remove(0);
            assert(coords@ =~= old(coords)@.drop_first());
            assert(directions@ =~= old(directions)@.drop_first());
        }
        false
    }
}

/// Whether an unload left the backpack as it was: as many trees and fires as before
/// (bushes are not compared).
pub fn unload_changed_nothing(trees_now: usize, trees_before: usize, fires_now: usize, fires_before: usize) -> (same: bool)
    ensures
        same == (trees_now == trees_before && fires_now == fires_before),
{
    trees_now == trees_before && fires_now == fires_before
}

/// How a move of the robot (a step or a teleport) went.
#[derive(Clone, Copy, Debug, PartialEq, Eq, Structural)]
pub enum MoveOutcome {
    Moved,
    NotEnoughEnergy,
    OtherError,
}

/// What to do after a move.
#[derive(Clone, Copy, Debug, PartialEq, Eq, Structural)]
pub enum MoveReaction {
    /// The step is done: go on with the next one.
    Advance,
    /// Recharge, then try the same step again.
    RechargeAndRetry,
    /// Try the same step again.
    Retry,
}

/// The reaction to a move: only a successful move advances along the path.
pub fn react_to_move(outcome: MoveOutcome) -> (r: MoveReaction)
    ensures
        r == (match outcome {
            MoveOutcome::Moved => MoveReaction::Advance,
            MoveOutcome::NotEnoughEnergy => MoveReaction::RechargeAndRetry,
            MoveOutcome::OtherError => MoveReaction::Retry,
        }),
{
    match outcome {
        MoveOutcome::Moved => MoveReaction::Advance,
        MoveOutcome::NotEnoughEnergy => MoveReaction::RechargeAndRetry,
        MoveOutcome::OtherError => MoveReaction::Retry,
    }
}

/// How an attempt to lay the planned streets went.
#[derive(Clone, Copy, Debug, PartialEq, Eq, Structural)]
pub enum StreetOutcome {
    Built,
    NotEnoughRocks,
    NotEnoughEnergy,
    PutError,
    DestroyError,
    OtherError,
}

/// The steps that follow an attempt to lay streets, in this order: unload the backpack,
/// collect rocks, recharge, drop the planned cells already paved, drop the first planned
/// cell if the unload changed nothing, settle a failure by the rocks left, walk to the
/// next planned cell.
#[derive(Clone, Copy, Debug, PartialEq, Eq, Structural)]
pub struct StreetRecovery {
    pub unload: bool,
    pub collect: bool,
    pub recharge: bool,
    pub clear_paved: bool,
    pub drop_if_blocked: bool,
    pub settle: bool,
    pub walk_on: bool,
}

/// The recovery steps for each outcome of laying streets.
pub open spec fn recovery_spec(outcome: StreetOutcome) -> StreetRecovery {
    match outcome {
        StreetOutcome::Built => StreetRecovery {
            unload: false,
            collect: false,
            recharge: false,
            clear_paved: true,
            drop_if_blocked: false,
            settle: false,
            walk_on: true,
        },
        StreetOutcome::NotEnoughRocks => StreetRecovery {
            unload: true,
            collect: true,
            recharge: false,
            clear_paved: true,
            drop_if_blocked: false,
            settle: false,
            walk_on: true,
        },
        StreetOutcome::NotEnoughEnergy => StreetRecovery {
            unload: true,
            collect: false,
            recharge: true,
            clear_paved: false,
            drop_if_blocked: false,
            settle: false,
            walk_on: false,
        },
        StreetOutcome::PutError => StreetRecovery {
            unload: true,
            collect: true,
            recharge: false,
            clear_paved: true,
            drop_if_blocked: false,
            settle: false,
            walk_on: true,
        },
        StreetOutcome::DestroyError => StreetRecovery {
            unload: true,
            collect: false,
            recharge: false,
            clear_paved: false,
            drop_if_blocked: true,
            settle: false,
            walk_on: true,
        },
        StreetOutcome::OtherError => StreetRecovery {
            unload: true,
            collect: false,
            recharge: false,
            clear_paved: true,
            drop_if_blocked: false,
            settle: true,
            walk_on: true,
        },
    }
}

/// Decides how to go on after an attempt to lay the planned streets.
pub fn street_recovery(outcome: StreetOutcome) -> (plan: StreetRecovery)
    ensures
        plan == recovery_spec(outcome),
        plan.collect <==> (outcome == StreetOutcome::NotEnoughRocks || outcome
            == StreetOutcome::PutError),
        plan.recharge <==> outcome == StreetOutcome::NotEnoughEnergy,
{
    let yes = true;
    let no = false;
    match outcome {
        StreetOutcome::Built => StreetRecovery {
            unload: no,
            collect: no,
            recharge: no,
            clear_paved: yes,
            drop_if_blocked: no,
            settle: no,
            walk_on: yes,
        },
        StreetOutcome::NotEnoughRocks => StreetRecovery {
            unload: yes,
            collect: yes,
            recharge: no,
            clear_paved: yes,
            drop_if_blocked: no,
            settle: no,
            walk_on: yes,
        },
        StreetOutcome::NotEnoughEnergy => StreetRecovery {
            unload: yes,
            collect: no,
            recharge: yes,
            clear_paved: no,
            drop_if_blocked: no,
            settle: no,
            walk_on: no,
        },
        StreetOutcome::PutError => StreetRecovery {
            unload: yes,
            collect: yes,
            recharge: no,
            clear_paved: yes,
            drop_if_blocked: no,
            settle: no,
            walk_on: yes,
        },
        StreetOutcome::DestroyError => StreetRecovery {
            unload: yes,
            collect: no,
            recharge: no,
            clear_paved: no,
            drop_if_blocked: yes,
            settle: no,
            walk_on: yes,
        },
        StreetOutcome::OtherError => StreetRecovery {
            unload: yes,
            collect: no,
            recharge: no,
            clear_paved: yes,
            drop_if_blocked: no,
            settle: yes,
            walk_on: yes,
        },
    }
}

/// What to put down on one side of the robot while unloading the backpack, before fires.
#[derive(Clone, Copy, Debug, PartialEq, Eq, Structural)]
pub struct UnloadStep {
    /// Put all the trees here (and stop unloading once that works).
    pub trees: bool,
    /// Put all the bushes here.
    pub bushes: bool,
}

/// What to unload towards `side`: nothing towards the side the road goes on; else trees
/// once there are at least twenty, and bushes when there are any.
pub fn unload_step(side: Direction, road_side: Direction, trees: usize, bushes: usize) -> (step: UnloadStep)
    ensures
        step.trees == (side != road_side && trees >= 20),
        step.bushes == (side != road_side && bushes > 0),
{
    if side == road_side {
        UnloadStep { trees: false, bushes: false }
    } else {
        UnloadStep { trees: trees >= 20, bushes: bushes > 0 }
    }
}

/// How many fires to put towards `side` once its bushes have been put: none towards the
/// side the road goes on or when there are no fires; else as many as there are bushes
/// left in the backpack.
pub fn fires_to_put(side: Direction, road_side: Direction, fires: usize, bushes_left: usize) -> (amount: Option<usize>)
    ensures
        amount == (if side != road_side && fires > 0 {
            Some(bushes_left)
        } else {
            None
        }),
{
    if side != road_side && fires > 0 {
        Some(bushes_left)
    } else {
        None
    }
}

/// What each tick does, by mode: exploring switches to operation; planning is followed by
/// building; while building, a road is built exactly when some road is still planned and
/// some rock is known, and otherwise the robot finishes; a recharge waits, and ends
/// exactly when the robot has enough energy.
pub proof fn lemma_tick_laws(roads_left: nat, rocks_left: nat, enough_energy: bool)
    ensures
        tick_spec(RobotMode::Discover, roads_left, rocks_left, enough_energy) == (
            TickAction::Explore,
            RobotMode::Operation,
        ),
        tick_spec(RobotMode::Operation, roads_left, rocks_left, enough_energy) == (
            TickAction::PlanNetwork,
            RobotMode::Build,
        ),
        (tick_spec(RobotMode::Build, roads_left, rocks_left, enough_energy).0 == TickAction::BuildRoad) <==> (
        roads_left > 0 && rocks_left > 0),
        (tick_spec(RobotMode::Build, roads_left, rocks_left, enough_energy).0 == TickAction::Finish) <==> (
        roads_left == 0 || rocks_left == 0),
        tick_spec(RobotMode::Build, roads_left, rocks_left, enough_energy).1 == RobotMode::Build,
        tick_spec(RobotMode::Recharge, roads_left, rocks_left, enough_energy).0 == TickAction::Wait,
        (tick_spec(RobotMode::Recharge, roads_left, rocks_left, enough_energy).1 == RobotMode::Discover)
            <==> enough_energy,
        (tick_spec(RobotMode::Recharge, roads_left, rocks_left, enough_energy).1 == RobotMode::Recharge)
            <==> !enough_energy,
{
}

/// Recovery after an attempt to lay streets, step by step: the backpack is unloaded after
/// every failure; rocks are collected only when the attempt lacked rocks or could not put
/// them; the robot recharges only when it lacked energy; paved cells are dropped unless it
/// lacked energy or met something it could not destroy; a blocked cell is dropped only
/// after a destroy error; other failures are settled by the rocks left; and the robot
/// walks on unless it lacked energy.
pub proof fn lemma_recovery_laws(outcome: StreetOutcome)
    ensures
        recovery_spec(outcome).unload <==> outcome != StreetOutcome::Built,
        recovery_spec(outcome).collect <==> (outcome == StreetOutcome::NotEnoughRocks || outcome
            == StreetOutcome::PutError),
        recovery_spec(outcome).recharge <==> outcome == StreetOutcome::NotEnoughEnergy,
        recovery_spec(outcome).clear_paved <==> (outcome != StreetOutcome::NotEnoughEnergy && outcome
            != StreetOutcome::DestroyError),
        recovery_spec(outcome).drop_if_blocked <==> outcome == StreetOutcome::DestroyError,
        recovery_spec(outcome).settle <==> outcome == StreetOutcome::OtherError,
        recovery_spec(outcome).walk_on <==> outcome != StreetOutcome::NotEnoughEnergy,
{
}

/// The corner roads are planned from the corners that have been seen: the road between
/// `(4, 4)` and `(m, m)` is planned exactly when both have been seen, whatever the other
/// corners are; the road between `(4, m)` and `(m, 4)` when those two have been seen, or
/// when `(4, 4)` and `(m, 4)` have; the road from `(4, m)` to `(m, m)` when those two
/// have; the road from `(4, m)` to itself when `(4, 4)` and `(4, m)` have; the road from
/// `(m, 4)` to `(m, m)` when those two have.  Every corner road costs 100.  On an
/// eight-cell map the four corners coincide, so there each condition still plans its
/// road, but a road may also come from another condition.
pub proof fn lemma_corner_road_laws(w: Seq<Vec<Option<Tile>>>, n: int)
    requires
        square(w, n),
        4 < n <= usize::MAX,
    ensures
        seen(w, 4, 4) && seen(w, n - 4, n - 4) ==> corner_roads(w, n).contains(
            long_road((4, 4), ((n - 4) as usize, (n - 4) as usize)),
        ),
        (seen(w, 4, n - 4) && seen(w, n - 4, 4)) || (seen(w, 4, 4) && seen(w, n - 4, 4))
            ==> corner_roads(w, n).contains(long_road((4, (n - 4) as usize), ((n - 4) as usize, 4))),
        seen(w, 4, n - 4) && seen(w, n - 4, n - 4) ==> corner_roads(w, n).contains(
            long_road((4, (n - 4) as usize), ((n - 4) as usize, (n - 4) as usize)),
        ),
        seen(w, 4, 4) && seen(w, 4, n - 4) ==> corner_roads(w, n).contains(
            long_road((4, (n - 4) as usize), (4, (n - 4) as usize)),
        ),
        seen(w, n - 4, 4) && seen(w, n - 4, n - 4) ==> corner_roads(w, n).contains(
            long_road(((n - 4) as usize, 4), ((n - 4) as usize, (n - 4) as usize)),
        ),
        n != 8 ==> (corner_roads(w, n).contains(
            long_road((4, 4), ((n - 4) as usize, (n - 4) as usize)),
        ) ==> seen(w, 4, 4) && seen(w, n - 4, n - 4)),
        n != 8 ==> (corner_roads(w, n).contains(
            long_road((4, (n - 4) as usize), ((n - 4) as usize, 4)),
        ) ==> (seen(w, 4, n - 4) && seen(w, n - 4, 4)) || (seen(w, 4, 4) && seen(w, n - 4, 4))),
        n != 8 ==> (corner_roads(w, n).contains(
            long_road((4, (n - 4) as usize), ((n - 4) as usize, (n - 4) as usize)),
        ) ==> seen(w, 4, n - 4) && seen(w, n - 4, n - 4)),
        n != 8 ==> (corner_roads(w, n).contains(
            long_road((4, (n - 4) as usize), (4, (n - 4) as usize)),
        ) ==> seen(w, 4, 4) && seen(w, 4, n - 4)),
        n != 8 ==> (corner_roads(w, n).contains(
            long_road(((n - 4) as usize, 4), ((n - 4) as usize, (n - 4) as usize)),
        ) ==> seen(w, n - 4, 4) && seen(w, n - 4, n - 4)),
        forall|k: int|
            0 <= k < corner_roads(w, n).len() ==> #[trigger] corner_roads(w, n)[k].cost == 100,
{
    let m = n - 4;
    let lo = 4usize;
    let hi = m as usize;
    let r1 = when(seen(w, 4, 4) && seen(w, m, m), long_road((lo, lo), (hi, hi)));
    let r2 = when(seen(w, 4, m) && seen(w, m, 4), long_road((lo, hi), (hi, lo)));
    let r3 = when(seen(w, 4, 4) && seen(w, m, 4), long_road((lo, hi), (hi, lo)));
    let r4 = when(seen(w, 4, m) && seen(w, m, m), long_road((lo, hi), (hi, hi)));
    let r5 = when(seen(w, 4, 4) && seen(w, 4, m), long_road((lo, hi), (lo, hi)));
    let r6 = when(seen(w, m, 4) && seen(w, m, m), long_road((hi, lo), (hi, hi)));
    let roads = corner_roads(w, n);
    assert(roads =~= r1 + r2 + r3 + r4 + r5 + r6);
    let l1 = r1.len() as int;
    let l2 = l1 + r2.len();
    let l3 = l2 + r3.len();
    let l4 = l3 + r4.len();
    let l5 = l4 + r5.len();
    assert(roads.len() == l5 + r6.len());
    assert forall|k: int| 0 <= k < roads.len() implies (#[trigger] roads[k] == r1[k] && k < l1) || (
    roads[k] == r2[k - l1] && l1 <= k < l2) || (roads[k] == r3[k - l2] && l2 <= k < l3) || (roads[k]
        == r4[k - l3] && l3 <= k < l4) || (roads[k] == r5[k - l4] && l4 <= k < l5) || (roads[k] == r6[k
        - l5] && l5 <= k) by {}
    if r1.len() > 0 {
        assert(roads[0] == r1[0]);
    }
    if r2.len() > 0 {
        assert(roads[l1] == r2[0]);
    }
    if r3.len() > 0 {
        assert(roads[l2] == r3[0]);
    }
    if r4.len() > 0 {
        assert(roads[l3] == r4[0]);
    }
    if r5.len() > 0 {
        assert(roads[l4] == r5[0]);
    }
    if r6.len() > 0 {
        assert(roads[l5] == r6[0]);
    }
}

} // verus!
