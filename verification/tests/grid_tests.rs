use unit_nav::environment::{CellCoord, GridSettings, MovementGrid, NavError, WorldPos};

fn settings_5x5() -> GridSettings {
    GridSettings {
        cell_size: 1000,
        grid_width: 5,
        grid_height: 5,
        xy_offset_x: 0,
        xy_offset_y: 0,
        density_permille: 0,
    }
}

#[test]
fn world_cell_round_trip_all_cells() {
    let g = MovementGrid::new(settings_5x5());
    for x in 0..5usize {
        for y in 0..5usize {
            let c = CellCoord { x, y };
            let w = g.cell_to_world(c);
            assert_eq!(g.world_to_cell(w), Ok(c));
        }
    }
}

#[test]
fn world_to_cell_floors_inside_cell() {
    let g = MovementGrid::new(settings_5x5());
    // Anywhere strictly inside cell (2, 3) maps back to it.
    assert_eq!(g.world_to_cell(WorldPos { x: 2999, y: 3001 }), Ok(CellCoord { x: 2, y: 3 }));
}

#[test]
fn world_to_cell_with_offset() {
    let s = GridSettings {
        cell_size: 200,
        grid_width: 10,
        grid_height: 10,
        xy_offset_x: 5,
        xy_offset_y: 5,
        density_permille: 0,
    };
    let g = MovementGrid::new(s);
    // The origin sits at cell (5, 5) when the offset is five cells.
    assert_eq!(g.world_to_cell(WorldPos { x: 0, y: 0 }), Ok(CellCoord { x: 5, y: 5 }));
    // One cell west of the origin.
    assert_eq!(g.world_to_cell(WorldPos { x: -200, y: 0 }), Ok(CellCoord { x: 4, y: 5 }));
}

#[test]
fn world_to_cell_out_of_range_is_rejected() {
    let g = MovementGrid::new(settings_5x5());
    assert_eq!(g.world_to_cell(WorldPos { x: -1, y: 0 }), Err(NavError::CellOutOfBounds));
    assert_eq!(g.world_to_cell(WorldPos { x: 5000, y: 0 }), Err(NavError::CellOutOfBounds));
}

#[test]
fn is_blocked_reports_occupancy() {
    let mut g = MovementGrid::new(settings_5x5());
    assert_eq!(g.is_blocked(CellCoord { x: 1, y: 2 }), Ok(false));
    assert_eq!(g.set_blocked(CellCoord { x: 1, y: 2 }, true), Ok(()));
    assert_eq!(g.is_blocked(CellCoord { x: 1, y: 2 }), Ok(true));
    assert_eq!(g.set_blocked(CellCoord { x: 1, y: 2 }, false), Ok(()));
    assert_eq!(g.is_blocked(CellCoord { x: 1, y: 2 }), Ok(false));
}

#[test]
fn is_blocked_out_of_range_is_rejected() {
    let g = MovementGrid::new(settings_5x5());
    assert_eq!(g.is_blocked(CellCoord { x: 5, y: 0 }), Err(NavError::CellOutOfBounds));
    assert_eq!(g.is_blocked(CellCoord { x: 0, y: 7 }), Err(NavError::CellOutOfBounds));
}

#[test]
fn set_blocked_out_of_range_is_rejected() {
    let mut g = MovementGrid::new(settings_5x5());
    assert_eq!(g.set_blocked(CellCoord { x: 9, y: 9 }, true), Err(NavError::CellOutOfBounds));
}
