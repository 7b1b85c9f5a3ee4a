use unit_nav::a_star::{a_star, calculate_a_star, run_search, MoveOutcome, SearchStatus};
use unit_nav::environment::{CellCoord, GridSettings, MovementGrid, NavError, WorldPos};
use unit_nav::movable::{follow_path, Heading, Movable, MoveCommand, MovementPath};

fn grid(w: usize, h: usize, blocked: &[(usize, usize)]) -> MovementGrid {
    let mut g = MovementGrid::new(GridSettings {
        cell_size: 1000,
        grid_width: w,
        grid_height: h,
        xy_offset_x: 0,
        xy_offset_y: 0,
        density_permille: 0,
    });
    for &(x, y) in blocked {
        g.set_blocked(CellCoord { x, y }, true).unwrap();
    }
    g
}

fn centre(g: &MovementGrid, x: usize, y: usize) -> WorldPos {
    g.cell_to_world(CellCoord { x, y })
}

fn search(g: &MovementGrid, from: (usize, usize), to: (usize, usize)) -> Result<MovementPath, NavError> {
    let pos = centre(g, from.0, from.1);
    let cmd = MoveCommand { target: centre(g, to.0, to.1) };
    match a_star(g, pos, &cmd) {
        Ok(MoveOutcome::Search(mut params)) => run_search(&mut params, g, 1_000_000),
        Ok(MoveOutcome::Arrived) => Ok(MovementPath { path: Vec::new() }),
        Err(e) => Err(e),
    }
}

// Breadth-first reachability over free cells, ignoring heading but using
// the same adjacency rule (eight neighbours, corner cut forbidden).
fn reachable(g: &MovementGrid, from: (usize, usize), to: (usize, usize)) -> bool {
    let w = g.settings.grid_width;
    let h = g.settings.grid_height;
    let free = |x: i64, y: i64| -> bool {
        x >= 0 && (x as usize) < w && y >= 0 && (y as usize) < h
            && !g.is_blocked(CellCoord { x: x as usize, y: y as usize }).unwrap()
    };
    let mut seen = vec![false; w * h];
    let mut queue = vec![from];
    seen[from.0 * h + from.1] = true;
    while let Some((x, y)) = queue.pop() {
        if (x, y) == to {
            return true;
        }
        for dx in -1i64..2 {
            for dy in -1i64..2 {
                if dx == 0 && dy == 0 {
                    continue;
                }
                let nx = x as i64 + dx;
                let ny = y as i64 + dy;
                if !free(nx, ny) {
                    continue;
                }
                // The corner-cut rule: both flanking cells blocked.
                if dx != 0 && dy != 0 && !free(x as i64, ny) && !free(nx, y as i64) {
                    continue;
                }
                let idx = nx as usize * h + ny as usize;
                if !seen[idx] {
                    seen[idx] = true;
                    queue.push((nx as usize, ny as usize));
                }
            }
        }
    }
    false
}

#[test]
fn open_grid_diagonal_route() {
    // A 5x5 open grid from (0,0) to (4,4): four diagonal steps, constant
    // heading, one initial turn away from north.
    let g = grid(5, 5, &[]);
    let path = search(&g, (0, 0), (4, 4)).unwrap();
    assert_eq!(path.path.len(), 4);
    // Goal-first storage: popping from the end walks start to goal.
    let cells: Vec<(i64, i64)> = path.path.iter().map(|n| (n.xy.x, n.xy.y)).collect();
    assert_eq!(cells, vec![(4000, 4000), (3000, 3000), (2000, 2000), (1000, 1000)]);
    for n in path.path.iter() {
        assert_eq!(n.h, Heading::NW);
    }
}

#[test]
fn open_grid_route_cost() {
    // Four diagonal steps at 1415 each, plus one heading step of turn
    // leaving north on the first move.
    let g = grid(5, 5, &[]);
    let pos = centre(&g, 0, 0);
    let cmd = MoveCommand { target: centre(&g, 4, 4) };
    let mut params = match a_star(&g, pos, &cmd).unwrap() {
        MoveOutcome::Search(p) => p,
        MoveOutcome::Arrived => panic!("expected a search"),
    };
    run_search(&mut params, &g, 1_000_000).unwrap();
    // The goal state (4, 4) entered heading NW sits at flat index
    // ((4 * 5 + 4) * 8) + 7.
    let goal = params.movement_grid[(4 * 5 + 4) * 8 + 7];
    assert_eq!(goal.g_score, 4 * 1415 + 1000);
}

#[test]
fn motion_controller_drains_route() {
    let g = grid(5, 5, &[]);
    let mut path = search(&g, (0, 0), (4, 4)).unwrap();
    assert_eq!(path.path.len(), 4);
    let mut unit = Movable { position: centre(&g, 0, 0), facing: 0 };
    follow_path(&mut unit, &mut path, 500, 200, 1000);
    assert!(path.path.is_empty());
    assert_eq!(unit.position, centre(&g, 4, 4));
}

#[test]
fn full_wall_gives_path_not_found() {
    // A wall across the whole row y = 2 seals start from target.
    let g = grid(5, 5, &[(0, 2), (1, 2), (2, 2), (3, 2), (4, 2)]);
    assert_eq!(search(&g, (0, 0), (4, 4)), Err(NavError::PathNotFound));
}

#[test]
fn wall_with_opening_is_passable() {
    let g = grid(5, 5, &[(0, 2), (1, 2), (3, 2), (4, 2)]);
    let path = search(&g, (0, 0), (4, 4)).unwrap();
    assert!(path.path.iter().any(|n| (n.xy.x, n.xy.y) == (2000, 2000)));
}

#[test]
fn blocked_corner_pair_is_never_crossed() {
    // (0,0) and (1,1) are free but both flanks are blocked: the only way
    // between them would cut the corner, so there is no route.
    let g = grid(2, 2, &[(0, 1), (1, 0)]);
    assert_eq!(search(&g, (0, 0), (1, 1)), Err(NavError::PathNotFound));
}

#[test]
fn failed_search_means_flood_fill_fails_too() {
    // Cross-check the search outcome against plain reachability on a
    // collection of grids, walls with and without openings.
    let grids = vec![
        grid(5, 5, &[]),
        grid(5, 5, &[(0, 2), (1, 2), (2, 2), (3, 2), (4, 2)]),
        grid(5, 5, &[(0, 2), (2, 2), (3, 2), (4, 2)]),
        grid(4, 4, &[(1, 0), (1, 1), (0, 1)]),
        grid(4, 4, &[(1, 0), (1, 1), (1, 2), (2, 2), (3, 2)]),
        grid(3, 3, &[(1, 1)]),
        grid(3, 3, &[(0, 1), (1, 0)]),
    ];
    for g in grids.iter() {
        let found = search(g, (0, 0), (g.settings.grid_width - 1, g.settings.grid_height - 1)).is_ok();
        let conn = reachable(g, (0, 0), (g.settings.grid_width - 1, g.settings.grid_height - 1));
        assert_eq!(found, conn);
    }
}

#[test]
fn search_is_deterministic() {
    // The same request on an unchanged grid yields the identical waypoint
    // sequence.
    let g = grid(6, 6, &[(2, 1), (2, 2), (2, 3), (4, 4)]);
    let first = search(&g, (0, 0), (5, 5)).unwrap();
    let second = search(&g, (0, 0), (5, 5)).unwrap();
    assert_eq!(first.path, second.path);
}

#[test]
fn same_cell_request_is_already_arrived() {
    let g = grid(5, 5, &[]);
    let pos = centre(&g, 2, 2);
    let cmd = MoveCommand { target: WorldPos { x: pos.x + 1, y: pos.y + 1 } };
    match a_star(&g, pos, &cmd).unwrap() {
        MoveOutcome::Arrived => {},
        MoveOutcome::Search(_) => panic!("same-cell request must not search"),
    }
}

#[test]
fn out_of_grid_request_is_rejected() {
    let g = grid(5, 5, &[]);
    let pos = centre(&g, 0, 0);
    let cmd = MoveCommand { target: WorldPos { x: 9000, y: 0 } };
    assert_eq!(a_star(&g, pos, &cmd).err(), Some(NavError::CellOutOfBounds));
    let cmd2 = MoveCommand { target: centre(&g, 1, 1) };
    assert_eq!(a_star(&g, WorldPos { x: -5, y: 0 }, &cmd2).err(), Some(NavError::CellOutOfBounds));
}

#[test]
fn step_budget_exhaustion_is_path_not_found() {
    let g = grid(5, 5, &[]);
    let pos = centre(&g, 0, 0);
    let cmd = MoveCommand { target: centre(&g, 4, 4) };
    let mut params = match a_star(&g, pos, &cmd).unwrap() {
        MoveOutcome::Search(p) => p,
        MoveOutcome::Arrived => panic!("expected a search"),
    };
    assert_eq!(run_search(&mut params, &g, 0), Err(NavError::PathNotFound));
    // Unlike a frontier-exhaustion failure, a budget failure leaves work in
    // the frontier.
    assert!(!params.open_set.is_empty());
}

#[test]
fn single_step_is_resumable() {
    // Stepping by hand reaches the same outcome as the driver.
    let g = grid(3, 3, &[]);
    let pos = centre(&g, 0, 0);
    let cmd = MoveCommand { target: centre(&g, 2, 0) };
    let mut params = match a_star(&g, pos, &cmd).unwrap() {
        MoveOutcome::Search(p) => p,
        MoveOutcome::Arrived => panic!("expected a search"),
    };
    let mut result = None;
    for _ in 0..1000 {
        match calculate_a_star(&mut params, &g) {
            SearchStatus::InProgress => continue,
            SearchStatus::Succeeded(mp) => {
                result = Some(mp);
                break;
            },
            SearchStatus::Failed => panic!("open route reported unreachable"),
        }
    }
    let mp = result.expect("search did not finish in the step budget");
    assert_eq!(mp.path.len(), 2);
    assert_eq!((mp.path[0].xy.x, mp.path[0].xy.y), (2000, 0));
    assert_eq!((mp.path[1].xy.x, mp.path[1].xy.y), (1000, 0));
}
