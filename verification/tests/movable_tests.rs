use unit_nav::environment::{CellCoord, GridSettings, MovementGrid, WorldPos};
use unit_nav::movable::{
    calculate_course_deflection, calculate_heading, check_path_width, get_neighbours,
    heuristical_distance, inertia_based_inter_cell_movement, move_towards, move_units, Heading,
    Movable, MovementPath, NodeCoords, PathNode,
};

fn open_grid(w: usize, h: usize) -> MovementGrid {
    MovementGrid::new(GridSettings {
        cell_size: 1000,
        grid_width: w,
        grid_height: h,
        xy_offset_x: 0,
        xy_offset_y: 0,
        density_permille: 0,
    })
}

fn node(x: usize, y: usize, h: Heading) -> NodeCoords {
    NodeCoords { xy: CellCoord { x, y }, h }
}

#[test]
fn heading_of_each_delta() {
    let c = CellCoord { x: 1, y: 1 };
    assert_eq!(calculate_heading(&c, &CellCoord { x: 0, y: 1 }), Heading::E);
    assert_eq!(calculate_heading(&c, &CellCoord { x: 0, y: 2 }), Heading::NE);
    assert_eq!(calculate_heading(&c, &CellCoord { x: 1, y: 2 }), Heading::N);
    assert_eq!(calculate_heading(&c, &CellCoord { x: 2, y: 2 }), Heading::NW);
    assert_eq!(calculate_heading(&c, &CellCoord { x: 2, y: 1 }), Heading::W);
    assert_eq!(calculate_heading(&c, &CellCoord { x: 2, y: 0 }), Heading::SW);
    assert_eq!(calculate_heading(&c, &CellCoord { x: 1, y: 0 }), Heading::S);
    assert_eq!(calculate_heading(&c, &CellCoord { x: 0, y: 0 }), Heading::SE);
}

#[test]
fn deflection_penalty_values() {
    let a = node(0, 0, Heading::N);
    assert_eq!(calculate_course_deflection(&a, &node(1, 1, Heading::N)), 0);
    assert_eq!(calculate_course_deflection(&a, &node(1, 1, Heading::NE)), 1);
    assert_eq!(calculate_course_deflection(&a, &node(1, 1, Heading::E)), 2);
    assert_eq!(calculate_course_deflection(&a, &node(1, 1, Heading::SE)), 3);
    assert_eq!(calculate_course_deflection(&a, &node(1, 1, Heading::S)), 4);
    assert_eq!(calculate_course_deflection(&a, &node(1, 1, Heading::SW)), 3);
    assert_eq!(calculate_course_deflection(&a, &node(1, 1, Heading::W)), 2);
    assert_eq!(calculate_course_deflection(&a, &node(1, 1, Heading::NW)), 1);
}

#[test]
fn deflection_penalty_is_symmetric() {
    let headings = [
        Heading::N,
        Heading::NE,
        Heading::E,
        Heading::SE,
        Heading::S,
        Heading::SW,
        Heading::W,
        Heading::NW,
    ];
    for &a in headings.iter() {
        for &b in headings.iter() {
            let ab = calculate_course_deflection(&node(0, 0, a), &node(1, 1, b));
            let ba = calculate_course_deflection(&node(0, 0, b), &node(1, 1, a));
            assert_eq!(ab, ba);
        }
    }
}

#[test]
fn move_cost_orthogonal_and_diagonal() {
    // Straight-on orthogonal step: one cell, no turn.
    assert_eq!(
        inertia_based_inter_cell_movement(node(1, 1, Heading::N), node(1, 2, Heading::N)),
        1000
    );
    // Diagonal step, no turn.
    assert_eq!(
        inertia_based_inter_cell_movement(node(1, 1, Heading::NW), node(2, 2, Heading::NW)),
        1415
    );
    // Orthogonal step with a half-turn.
    assert_eq!(
        inertia_based_inter_cell_movement(node(1, 1, Heading::N), node(1, 0, Heading::S)),
        5000
    );
    // Diagonal step with a half-turn: the largest possible step cost.
    assert_eq!(
        inertia_based_inter_cell_movement(node(1, 1, Heading::N), node(2, 0, Heading::S)),
        5415
    );
}

#[test]
fn heuristic_is_scaled_euclidean_floor() {
    // A 3-4-5 triangle gives an exact distance.
    assert_eq!(heuristical_distance(node(0, 0, Heading::N), node(3, 4, Heading::N)), 5000);
    // One diagonal cell: floor(1000 * sqrt(2)).
    assert_eq!(heuristical_distance(node(0, 0, Heading::N), node(1, 1, Heading::N)), 1414);
    assert_eq!(heuristical_distance(node(2, 2, Heading::N), node(2, 2, Heading::N)), 0);
}

#[test]
fn open_cell_has_eight_neighbours() {
    let g = open_grid(3, 3);
    let nbs = get_neighbours(CellCoord { x: 1, y: 1 }, &g);
    assert_eq!(nbs.len(), 8);
}

#[test]
fn corner_cell_has_three_neighbours() {
    let g = open_grid(3, 3);
    let nbs = get_neighbours(CellCoord { x: 0, y: 0 }, &g);
    assert_eq!(nbs.len(), 3);
}

#[test]
fn blocked_cells_are_not_neighbours() {
    let mut g = open_grid(3, 3);
    g.set_blocked(CellCoord { x: 1, y: 2 }, true).unwrap();
    let nbs = get_neighbours(CellCoord { x: 1, y: 1 }, &g);
    assert_eq!(nbs.len(), 7);
    assert!(!nbs.iter().any(|n| n.xy == CellCoord { x: 1, y: 2 }));
}

#[test]
fn corner_cut_rejected_when_both_flanks_blocked() {
    // Two free cells diagonally adjacent, both orthogonal cells between
    // them blocked: no edge in either direction.
    let mut g = open_grid(3, 3);
    g.set_blocked(CellCoord { x: 0, y: 1 }, true).unwrap();
    g.set_blocked(CellCoord { x: 1, y: 0 }, true).unwrap();
    assert!(!check_path_width(CellCoord { x: 0, y: 0 }, CellCoord { x: 1, y: 1 }, &g));
    let nbs = get_neighbours(CellCoord { x: 0, y: 0 }, &g);
    assert!(nbs.is_empty());
    let back = get_neighbours(CellCoord { x: 1, y: 1 }, &g);
    assert!(!back.iter().any(|n| n.xy == CellCoord { x: 0, y: 0 }));
}

#[test]
fn corner_cut_allowed_when_one_flank_free() {
    let mut g = open_grid(3, 3);
    g.set_blocked(CellCoord { x: 0, y: 1 }, true).unwrap();
    assert!(check_path_width(CellCoord { x: 0, y: 0 }, CellCoord { x: 1, y: 1 }, &g));
    let nbs = get_neighbours(CellCoord { x: 0, y: 0 }, &g);
    assert!(nbs.iter().any(|n| n.xy == CellCoord { x: 1, y: 1 }));
}

#[test]
fn move_towards_advances_along_the_line() {
    let mut m = Movable { position: WorldPos { x: 0, y: 0 }, facing: 0 };
    let target = PathNode { xy: WorldPos { x: 1000, y: 0 }, h: Heading::W };
    // speed 500 milli-units per milli-second over 1000 milli-seconds: a
    // step of 500 along +x; not yet there.
    let reached = move_towards(&mut m, 500, 100, 1000, &target);
    assert!(!reached);
    assert_eq!(m.position, WorldPos { x: 500, y: 0 });
    // W asks for angle 250; the budget of 100 rotates only that far.
    assert_eq!(m.facing, 100);
    // A second tick covers the remaining 500 exactly and snaps on.
    let reached2 = move_towards(&mut m, 500, 100, 1000, &target);
    assert!(reached2);
    assert_eq!(m.position, WorldPos { x: 1000, y: 0 });
    assert_eq!(m.facing, 200);
}

#[test]
fn move_towards_rotates_shortest_way() {
    // NE asks for angle 875; from facing 0 the short way is backwards.
    let mut m = Movable { position: WorldPos { x: 0, y: 0 }, facing: 0 };
    let target = PathNode { xy: WorldPos { x: 10_000, y: 0 }, h: Heading::NE };
    move_towards(&mut m, 1000, 50, 1000, &target);
    assert_eq!(m.facing, 950);
}

#[test]
fn move_towards_zero_distance_is_reached() {
    let mut m = Movable { position: WorldPos { x: 7, y: 7 }, facing: 0 };
    let target = PathNode { xy: WorldPos { x: 7, y: 7 }, h: Heading::N };
    assert!(move_towards(&mut m, 1000, 0, 1000, &target));
    assert_eq!(m.position, WorldPos { x: 7, y: 7 });
}

#[test]
fn empty_route_is_immediately_arrived() {
    let mut m = Movable { position: WorldPos { x: 3, y: 4 }, facing: 123 };
    let mut path = MovementPath { path: Vec::new() };
    assert!(move_units(&mut m, &mut path, 1000, 100, 1000));
    assert_eq!(m.position, WorldPos { x: 3, y: 4 });
    assert_eq!(m.facing, 123);
}
