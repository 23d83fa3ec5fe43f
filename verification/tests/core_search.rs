use solvers::blizzard::{dfs, Blizzard, Dir, Time, TimeSlice};
use solvers::distance_oracle::{
    dfs as tour_dfs, floyd_warshall, total_released_pressure, Neighbor, Valve,
};
use solvers::grid_search::{shortest_path, tile_height};
use solvers::scheduler::{optimize, recurse, Blueprint, Build, Counters, Ctx};

fn grid(rows: &[&str]) -> Vec<Vec<u8>> {
    rows.iter()
        .map(|r| r.chars().map(tile_height).collect())
        .collect()
}

#[test]
fn grid_bfs_five_by_five() {
    // elevations a,a,a,a,a / a,b,c,c,a / a,b,c,c,a / a,b,b,b,a / a,a,a,a,a
    let map = grid(&["aaaaa", "abcca", "abcca", "abbba", "aaaaa"]);
    let d = shortest_path((0, 0), (2, 2), &map);
    assert_eq!(d, Some(4));
}

#[test]
fn grid_bfs_same_cell() {
    let map = grid(&["ab", "ba"]);
    assert_eq!(shortest_path((0, 0), (0, 0), &map), Some(0));
}

#[test]
fn grid_bfs_unreachable() {
    // a cliff: a -> z cannot be climbed from either side
    let map = grid(&["aza"]);
    assert_eq!(shortest_path((0, 0), (0, 2), &map), None);
}

#[test]
fn grid_bfs_descends_freely() {
    // dropping any number of levels is allowed
    let map = grid(&["za"]);
    assert_eq!(shortest_path((0, 0), (0, 1), &map), Some(1));
}

fn path_graph() -> Vec<Valve> {
    // 4 nodes in a line: 0 - 1 - 2 - 3
    let nb = |id: usize| Neighbor { id, distance: 1 };
    vec![
        Valve { flow: 0, neighbors: vec![nb(1)] },
        Valve { flow: 0, neighbors: vec![nb(0), nb(2)] },
        Valve { flow: 0, neighbors: vec![nb(1), nb(3)] },
        Valve { flow: 0, neighbors: vec![nb(2)] },
    ]
}

#[test]
fn oracle_path_graph() {
    let g = path_graph();
    let dist = floyd_warshall(&g);
    assert_eq!(dist[0][3], 3);
    assert_eq!(dist[0][2], 2);
    assert_eq!(dist[1][3], 2);
}

#[test]
fn oracle_symmetry_and_diagonal() {
    let g = path_graph();
    let dist = floyd_warshall(&g);
    for i in 0..4 {
        assert_eq!(dist[i][i], 0);
        for j in 0..4 {
            assert_eq!(dist[i][j], dist[j][i]);
        }
    }
}

#[test]
fn oracle_unreachable_stays_infinite() {
    let g = vec![
        Valve { flow: 0, neighbors: vec![] },
        Valve { flow: 0, neighbors: vec![] },
    ];
    let dist = floyd_warshall(&g);
    assert_eq!(dist[0][1], u32::MAX);
    assert_eq!(dist[0][0], 0);
}

#[test]
fn oracle_runs_identically_twice() {
    let g = path_graph();
    let d1 = floyd_warshall(&g);
    let d2 = floyd_warshall(&g);
    assert_eq!(d1, d2);
}

#[test]
fn tour_two_valves() {
    // one working valve ten units strong, one distance step away
    let g = vec![
        Valve { flow: 0, neighbors: vec![Neighbor { id: 1, distance: 1 }] },
        Valve { flow: 10, neighbors: vec![Neighbor { id: 0, distance: 1 }] },
    ];
    let dist = floyd_warshall(&g);
    let mut path = vec![0usize];
    let allowed = vec![1usize];
    let released = tour_dfs(&mut path, 26, 0, &g, &dist, &allowed);
    // arrive after 1 minute, open for 1 minute: 24 minutes of flow
    assert_eq!(released, 240);
    assert_eq!(path, vec![0]);
}

#[test]
fn tour_tally_matches_walk() {
    let g = vec![
        Valve { flow: 0, neighbors: vec![Neighbor { id: 1, distance: 1 }] },
        Valve { flow: 10, neighbors: vec![Neighbor { id: 0, distance: 1 }] },
    ];
    let dist = floyd_warshall(&g);
    let order = vec![0usize, 1usize];
    assert_eq!(total_released_pressure(&order, &dist, &g), 240);
    let empty: Vec<usize> = vec![];
    assert_eq!(total_released_pressure(&empty, &dist, &g), 0);
}

#[test]
fn blizzard_crossing_one_wide() {
    // a one-wide, two-deep corridor with one blizzard cycling with period 2
    let mut time = Time {
        width: 1,
        height: 2,
        slices: vec![TimeSlice {
            blizzards: vec![Blizzard { pos: (0, 0), dir: Dir::D }],
        }],
    };
    let mut seen: Vec<(i32, i32, usize)> = Vec::new();
    let crossing = dfs(&mut time, (0, -1), (0, -1), (0, 1), 0, &mut seen);
    // enter, step to the bottom, and step off the grid: three minutes
    assert_eq!(crossing, 3);
}

#[test]
fn blizzard_explored_states_are_free() {
    let mut time = Time {
        width: 2,
        height: 2,
        slices: vec![TimeSlice {
            blizzards: vec![Blizzard { pos: (0, 0), dir: Dir::R }],
        }],
    };
    let mut seen: Vec<(i32, i32, usize)> = Vec::new();
    let _ = dfs(&mut time, (0, -1), (0, -1), (1, 1), 0, &mut seen);
    // no recorded state may coincide with a blizzard of its snapshot
    for &(x, y, t) in &seen {
        assert!(t < time.slices.len());
        for b in &time.slices[t].blizzards {
            assert!(b.pos != (x, y));
        }
    }
}

#[test]
fn blizzard_tick_wraps() {
    let mut time = Time {
        width: 2,
        height: 1,
        slices: vec![TimeSlice {
            blizzards: vec![Blizzard { pos: (1, 0), dir: Dir::R }],
        }],
    };
    time.tick();
    assert_eq!(time.slices.len(), 2);
    assert_eq!(time.slices[1].blizzards[0].pos, (0, 0));
}

fn scenario_blueprint() -> Blueprint {
    // a single affordable producer: the payoff robot costs four units and
    // adds one unit of payoff per tick; everything else is out of reach
    Blueprint { ore: 100, clay: 100, obsidian: (100, 100), geode: (4, 0) }
}

fn pruned_best(bp: &Blueprint, budget: u32) -> u32 {
    let ctx = Ctx {
        blueprint: *bp,
        robots: Counters { ore: 1, clay: 0, obsidian: 0, geode: 0 },
        resources: Counters { ore: 0, clay: 0, obsidian: 0, geode: 0 },
        time_left: budget,
    };
    let mut best = 0;
    for next in [Build::Ore, Build::Clay, Build::Obsidian, Build::Geode] {
        best = best.max(recurse(ctx, next));
    }
    best
}

#[test]
fn scheduler_pruning_matches_exhaustive() {
    let bp = scenario_blueprint();
    for budget in 0..=8 {
        assert_eq!(pruned_best(&bp, budget), optimize(&bp, budget), "budget {budget}");
    }
}

#[test]
fn scheduler_scenario_payoffs() {
    let bp = scenario_blueprint();
    assert_eq!(optimize(&bp, 10), 6);
    assert_eq!(pruned_best(&bp, 24), 55);
}

#[test]
fn scheduler_payoff_monotone_in_budget() {
    let bp = scenario_blueprint();
    let mut last = 0;
    for budget in 0..=12 {
        let now = pruned_best(&bp, budget);
        assert!(now >= last, "payoff dropped at budget {budget}");
        last = now;
    }
}
