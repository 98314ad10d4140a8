use rover_planner::explore::{can_explore, find_all_content_type, next_frontier, CellSet};
use rover_planner::render::{convert_tile, known_map};
use rover_planner::robot::{
    add_corner_roads, drop_blocked_cell, explore_step, keep_collecting, plan_tick, react_to_move,
    settle_failed_street, street_recovery, unload_changed_nothing, unload_step, fires_to_put, ExploreAction, ExploreOutcome,
    MoveOutcome, MoveReaction, RobotMode, StreetOutcome, TickAction,
};
use rover_planner::spanning::Connection;
use rover_planner::world::{
    can_build_road, charted_to_coord_dir, facing, next_direction, remove_roads, Content, Direction, Tile,
    TileType,
};

fn tile(tile_type: TileType, content: Content) -> Tile {
    let walkable = !matches!(tile_type, TileType::DeepWater | TileType::Lava | TileType::Wall);
    Tile { tile_type, content, walkable }
}

fn ground(tile_type: TileType) -> Option<Tile> {
    Some(tile(tile_type, Content::NoContent))
}

fn grid(n: usize, t: TileType) -> Vec<Vec<Option<Tile>>> {
    vec![vec![ground(t); n]; n]
}

#[test]
fn next_direction_steps_or_teleports() {
    let mut tp = false;
    assert_eq!(next_direction((3, 3), (2, 3), &mut tp), Direction::Up);
    assert_eq!(next_direction((3, 3), (4, 3), &mut tp), Direction::Down);
    assert_eq!(next_direction((3, 3), (3, 2), &mut tp), Direction::Left);
    assert_eq!(next_direction((3, 3), (3, 4), &mut tp), Direction::Right);
    assert_eq!(next_direction((3, 3), (3, 3), &mut tp), Direction::Right);
    assert!(!tp);
    assert_eq!(next_direction((3, 3), (5, 7), &mut tp), Direction::Up);
    assert!(tp);
}

#[test]
fn facing_never_teleports() {
    assert_eq!(facing((3, 3), (5, 7)), Direction::Down);
    assert_eq!(facing((3, 3), (3, 1)), Direction::Left);
    assert_eq!(facing((3, 3), (1, 7)), Direction::Up);
}

#[test]
fn roads_go_on_grass_hill_sand_and_snow() {
    let mut w = grid(2, TileType::Grass);
    w[0][1] = ground(TileType::ShallowWater);
    w[1][0] = ground(TileType::Snow);
    w[1][1] = ground(TileType::Street);
    let m = Some(w);
    assert!(can_build_road(&m, 0, 0));
    assert!(!can_build_road(&m, 0, 1));
    assert!(can_build_road(&m, 1, 0));
    assert!(!can_build_road(&m, 1, 1));
    assert!(!can_build_road(&None, 7, 7));
}

#[test]
fn charted_to_coord_dir_skips_the_last_cell_and_unbuildable_cells() {
    let mut w = grid(4, TileType::Grass);
    w[0][2] = ground(TileType::Mountain);
    let m = Some(w);
    let path = vec![(0, 1), (0, 2), (1, 2), (2, 2), (3, 3)];
    let (coords, dirs) = charted_to_coord_dir(&m, (0, 0), path);
    assert_eq!(coords, vec![(0, 1), (1, 2), (2, 2)]);
    assert_eq!(dirs, vec![(Direction::Right, 1), (Direction::Down, 1), (Direction::Down, 1)]);
    let (coords, dirs) = charted_to_coord_dir(&m, (0, 0), vec![]);
    assert!(coords.is_empty() && dirs.is_empty());
    let (coords, _) = charted_to_coord_dir(&None, (0, 0), vec![(0, 1), (0, 2)]);
    assert!(coords.is_empty());
}

#[test]
fn remove_roads_drops_leading_streets() {
    let mut w = grid(3, TileType::Grass);
    w[0][1] = ground(TileType::Street);
    w[0][2] = ground(TileType::Street);
    w[2][2] = ground(TileType::Street);
    let m = Some(w);
    let mut coords = vec![(0, 1), (0, 2), (1, 1), (2, 2)];
    let mut dirs = vec![(Direction::Right, 1), (Direction::Right, 1), (Direction::Down, 1), (Direction::Down, 1)];
    remove_roads(&m, &mut coords, &mut dirs);
    assert_eq!(coords, vec![(1, 1), (2, 2)]);
    assert_eq!(dirs, vec![(Direction::Down, 1), (Direction::Down, 1)]);
    let mut all = vec![(0, 1), (0, 2)];
    let mut all_dirs = vec![(Direction::Up, 1), (Direction::Up, 1)];
    remove_roads(&m, &mut all, &mut all_dirs);
    assert!(all.is_empty() && all_dirs.is_empty());
    let mut kept = vec![(0, 1)];
    let mut kept_dirs = vec![(Direction::Up, 1)];
    remove_roads(&None, &mut kept, &mut kept_dirs);
    assert_eq!(kept, vec![(0, 1)]);
}

#[test]
fn can_explore_needs_a_walkable_cell_next_to_an_unseen_one() {
    let mut w = grid(3, TileType::Grass);
    w[0][0] = None;
    w[2][2] = ground(TileType::Lava);
    w[2][1] = None;
    assert_eq!(can_explore(&w, (0, 1), 3), Ok(()));
    assert_eq!(can_explore(&w, (1, 0), 3), Ok(()));
    assert_eq!(can_explore(&w, (1, 1), 3), Ok(()));
    assert_eq!(can_explore(&w, (1, 2), 3), Err(()));
    assert_eq!(can_explore(&w, (2, 2), 3), Err(()));
    let full = grid(3, TileType::Grass);
    assert_eq!(can_explore(&full, (1, 1), 3), Err(()));
}

#[test]
fn cell_set_behaves_as_a_set() {
    let mut s = CellSet::new();
    assert!(!s.contains((1, 2)));
    s.insert((1, 2));
    s.insert((1, 2));
    s.insert((0, 0));
    assert!(s.contains((1, 2)));
    assert!(s.contains((0, 0)));
    assert!(!s.contains((2, 1)));
}

#[test]
fn next_frontier_finds_the_first_frontier_and_rules_out_dead_ends() {
    let mut w = grid(3, TileType::Grass);
    w[2][2] = None;
    let mut skip = CellSet::new();
    let found = next_frontier(&w, &mut skip, 3, (0, 0));
    assert_eq!(found, Some((1, 2)));
    assert!(skip.contains((0, 0)) && skip.contains((1, 1)));
    assert!(!skip.contains((1, 2)) && !skip.contains((2, 0)));
    let found = next_frontier(&w, &mut skip, 3, (1, 3));
    assert_eq!(found, Some((2, 1)));
    assert!(skip.contains((2, 0)));
    let found = next_frontier(&w, &mut skip, 3, (2, 2));
    assert_eq!(found, None);
    let again = next_frontier(&w, &mut skip, 3, (0, 0));
    assert_eq!(again, Some((1, 2)));
}

#[test]
fn next_frontier_on_a_fully_seen_map_finds_nothing() {
    let w = grid(2, TileType::Sand);
    let mut skip = CellSet::new();
    assert_eq!(next_frontier(&w, &mut skip, 2, (0, 0)), None);
    for i in 0..2 {
        for j in 0..2 {
            assert!(skip.contains((i, j)));
        }
    }
}

#[test]
fn find_all_content_type_sorts_rocks_and_points_of_interest() {
    let mut w = grid(3, TileType::Grass);
    w[0][1] = Some(tile(TileType::Grass, Content::Rock));
    w[1][0] = Some(tile(TileType::Grass, Content::Bank));
    w[1][2] = Some(tile(TileType::Grass, Content::Tree));
    w[2][0] = None;
    w[2][1] = Some(tile(TileType::Grass, Content::Crate));
    w[2][2] = Some(tile(TileType::Hill, Content::Rock));
    let mut rocks = vec![(9, 9)];
    let mut interest = Vec::new();
    find_all_content_type(&w, &mut rocks, &mut interest);
    assert_eq!(rocks, vec![(9, 9), (0, 1), (2, 2)]);
    assert_eq!(interest, vec![(1, 0), (2, 1)]);
}

#[test]
fn convert_tile_draws_content_over_ground() {
    assert_eq!(convert_tile(&None), "  ");
    assert_eq!(convert_tile(&ground(TileType::DeepWater)), "🔷");
    assert_eq!(convert_tile(&ground(TileType::Teleport(true))), "🚪");
    assert_eq!(convert_tile(&Some(tile(TileType::Grass, Content::Rock))), "🪨");
    assert_eq!(convert_tile(&Some(tile(TileType::Grass, Content::Garbage))), "x");
}

#[test]
fn known_map_marks_every_tile_known() {
    let tiles = vec![vec![tile(TileType::Sand, Content::NoContent)], vec![]];
    let m = known_map(&tiles);
    assert_eq!(m.len(), 2);
    assert_eq!(m[0], vec![Some(tiles[0][0])]);
    assert!(m[1].is_empty());
}

#[test]
fn plan_tick_follows_the_modes() {
    assert_eq!(plan_tick(RobotMode::Discover, 0, 0, false), (TickAction::Explore, RobotMode::Operation));
    assert_eq!(plan_tick(RobotMode::Operation, 0, 0, false), (TickAction::PlanNetwork, RobotMode::Build));
    assert_eq!(plan_tick(RobotMode::Build, 2, 1, false), (TickAction::BuildRoad, RobotMode::Build));
    assert_eq!(plan_tick(RobotMode::Build, 0, 1, false), (TickAction::Finish, RobotMode::Build));
    assert_eq!(plan_tick(RobotMode::Build, 3, 0, true), (TickAction::Finish, RobotMode::Build));
    assert_eq!(plan_tick(RobotMode::Recharge, 0, 0, true), (TickAction::Wait, RobotMode::Discover));
    assert_eq!(plan_tick(RobotMode::Recharge, 0, 0, false), (TickAction::Wait, RobotMode::Recharge));
}

#[test]
fn explore_step_reacts_to_each_outcome() {
    assert_eq!(explore_step(ExploreOutcome::MapAllExplored), ExploreAction::SwitchToOperation);
    assert_eq!(explore_step(ExploreOutcome::RadiusExplored), ExploreAction::DiscoverNext);
    assert_eq!(explore_step(ExploreOutcome::OtherResult), ExploreAction::Continue);
    assert_eq!(explore_step(ExploreOutcome::MaxEnergyReached), ExploreAction::Recharge);
    assert_eq!(explore_step(ExploreOutcome::RestOfMapIsUnreachable), ExploreAction::DiscoverNext);
    assert_eq!(explore_step(ExploreOutcome::NotEnoughEnergy), ExploreAction::Recharge);
    assert_eq!(explore_step(ExploreOutcome::OtherLibError), ExploreAction::Report);
    assert_eq!(explore_step(ExploreOutcome::OtherError), ExploreAction::Report);
}

#[test]
fn keep_collecting_limits() {
    assert!(keep_collecting(0, 0, 1));
    assert!(keep_collecting(4, 20, 3));
    assert!(!keep_collecting(5, 0, 3));
    assert!(!keep_collecting(0, 21, 3));
    assert!(!keep_collecting(0, 0, 0));
}

#[test]
fn corner_roads_join_seen_corners() {
    let w = grid(10, TileType::Grass);
    let mut mst = vec![];
    add_corner_roads(&w, 10, &mut mst);
    let c = |s: (usize, usize), e: (usize, usize)| Connection { cost: 100, start: s, end: e };
    assert_eq!(
        mst,
        vec![c((4, 4), (6, 6)), c((4, 6), (6, 4)), c((4, 6), (6, 4)), c((4, 6), (6, 6)), c((4, 6), (4, 6)), c((6, 4), (6, 6))]
    );
    let mut partial = grid(10, TileType::Grass);
    partial[6][6] = None;
    partial[4][6] = None;
    let mut mst2 = vec![c((0, 0), (1, 1))];
    add_corner_roads(&partial, 10, &mut mst2);
    assert_eq!(mst2, vec![c((0, 0), (1, 1)), c((4, 6), (6, 4))]);
}

#[test]
fn failed_street_recovery() {
    let mut coords = vec![(1, 1), (1, 2)];
    let mut dirs = vec![(Direction::Right, 1), (Direction::Right, 1)];
    assert!(!drop_blocked_cell(false, &mut coords, &mut dirs));
    assert_eq!(coords.len(), 2);
    assert!(drop_blocked_cell(true, &mut coords, &mut dirs));
    assert_eq!(coords, vec![(1, 2)]);
    assert!(settle_failed_street(0, 1, &mut coords, &mut dirs));
    assert_eq!(coords, vec![(1, 2)]);
    assert!(!settle_failed_street(3, 2, &mut coords, &mut dirs));
    assert_eq!(coords, vec![(1, 2)]);
    assert!(!settle_failed_street(3, 1, &mut coords, &mut dirs));
    assert!(coords.is_empty() && dirs.is_empty());
    let mut none: Vec<(usize, usize)> = vec![];
    let mut none_dirs: Vec<(Direction, usize)> = vec![];
    assert!(!drop_blocked_cell(true, &mut none, &mut none_dirs));
}

#[test]
fn unload_compares_trees_and_fires() {
    assert!(unload_changed_nothing(3, 3, 1, 1));
    assert!(!unload_changed_nothing(2, 3, 1, 1));
    assert!(!unload_changed_nothing(3, 3, 0, 1));
}

#[test]
fn only_a_successful_move_advances() {
    assert_eq!(react_to_move(MoveOutcome::Moved), MoveReaction::Advance);
    assert_eq!(react_to_move(MoveOutcome::NotEnoughEnergy), MoveReaction::RechargeAndRetry);
    assert_eq!(react_to_move(MoveOutcome::OtherError), MoveReaction::Retry);
}

#[test]
fn street_recovery_per_outcome() {
    let built = street_recovery(StreetOutcome::Built);
    assert!(!built.unload && built.clear_paved && built.walk_on && !built.collect);
    let rocks = street_recovery(StreetOutcome::NotEnoughRocks);
    assert!(rocks.unload && rocks.collect && rocks.clear_paved && rocks.walk_on && !rocks.recharge);
    let energy = street_recovery(StreetOutcome::NotEnoughEnergy);
    assert!(energy.unload && energy.recharge && !energy.walk_on && !energy.clear_paved);
    assert_eq!(street_recovery(StreetOutcome::PutError), rocks);
    let destroy = street_recovery(StreetOutcome::DestroyError);
    assert!(destroy.unload && destroy.drop_if_blocked && destroy.walk_on && !destroy.clear_paved);
    let other = street_recovery(StreetOutcome::OtherError);
    assert!(other.unload && other.clear_paved && other.settle && other.walk_on && !other.collect);
}

#[test]
fn unload_step_skips_the_road_side() {
    let s = unload_step(Direction::Up, Direction::Up, 30, 2);
    assert!(!s.trees && !s.bushes);
    let s = unload_step(Direction::Left, Direction::Up, 30, 2);
    assert!(s.trees && s.bushes);
    let s = unload_step(Direction::Left, Direction::Up, 19, 0);
    assert!(!s.trees && !s.bushes);
}

#[test]
fn fires_follow_the_bushes_left() {
    assert_eq!(fires_to_put(Direction::Up, Direction::Up, 3, 2), None);
    assert_eq!(fires_to_put(Direction::Down, Direction::Up, 0, 2), None);
    assert_eq!(fires_to_put(Direction::Down, Direction::Up, 3, 2), Some(2));
    // all bushes were put on this side first: the fires follow the count left, zero
    assert_eq!(fires_to_put(Direction::Down, Direction::Up, 3, 0), Some(0));
}
