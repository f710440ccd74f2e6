use filler::board::{Block, Filler, OwnedBy, AI_SEED, PLAYER_SEED};
use filler::coords::{index_to_point, point_to_index, COLORS_NUM, GRID_SIZE};
use filler::engine::MoveError;

/// A deterministic board: every cell color 0 and unclaimed, except the
/// player seed (color 1, owned by Player) and the AI seed (color 0, owned
/// by AI).
fn fixed_board() -> Filler {
    let mut game = Filler::new();
    for idx in 0..GRID_SIZE {
        game.game_grid[idx] = Block {
            color: 0,
            owned_by: OwnedBy::Nobody,
        };
    }
    game.game_grid[PLAYER_SEED] = Block {
        color: 1,
        owned_by: OwnedBy::Player,
    };
    game.game_grid[AI_SEED] = Block {
        color: 0,
        owned_by: OwnedBy::AI,
    };
    game
}

#[test]
fn new_board_is_seeded_and_fully_colored() {
    let game = Filler::new();
    assert_eq!(game.game_grid.len(), GRID_SIZE);
    for (idx, block) in game.game_grid.iter().enumerate() {
        assert!((block.color as usize) < COLORS_NUM);
        if idx == PLAYER_SEED {
            assert_eq!(block.owned_by, OwnedBy::Player);
        } else if idx == AI_SEED {
            assert_eq!(block.owned_by, OwnedBy::AI);
        } else {
            assert_eq!(block.owned_by, OwnedBy::Nobody);
        }
    }
}

#[test]
fn point_index_round_trip() {
    assert_eq!(point_to_index(0, 0), 0);
    assert_eq!(point_to_index(7, 0), 7);
    assert_eq!(point_to_index(0, 7), 56);
    assert_eq!(point_to_index(3, 2), 19);
    assert_eq!(point_to_index(-1, 2), -1);
    assert_eq!(point_to_index(3, -1), -1);
    assert_eq!(index_to_point(19), (3, 2));
    assert_eq!(index_to_point(0), (0, 0));
    assert_eq!(index_to_point(63), (7, 7));
    for idx in 0..GRID_SIZE as i32 {
        let (x, y) = index_to_point(idx);
        assert_eq!(point_to_index(x, y), idx);
    }
}

#[test]
fn neighbors_are_bounds_checked() {
    let game = Filler::new();
    // bottom-left corner of the displayed grid: (0, 0)
    assert_eq!(game.get_neighbors(0, 0), vec![None, Some(1), Some(8), None]);
    // opposite corner
    assert_eq!(
        game.get_neighbors(7, 7),
        vec![Some(62), None, None, Some(55)]
    );
    // an interior cell has all four neighbors, with no wraparound
    assert_eq!(
        game.get_neighbors(3, 2),
        vec![Some(18), Some(20), Some(27), Some(11)]
    );
    // right edge: no eastern neighbor even though index 8 * y + x + 1 exists
    assert_eq!(
        game.get_neighbors(7, 2),
        vec![Some(22), None, Some(31), Some(15)]
    );
}

#[test]
fn color_getters_read_the_seed_cells() {
    let game = fixed_board();
    assert_eq!(game.get_player_color(), 1);
    assert_eq!(game.get_ai_color(), 0);
}

#[test]
fn recolor_side_touches_exactly_the_owned_region() {
    let mut game = fixed_board();
    game.game_grid[57] = Block {
        color: 4,
        owned_by: OwnedBy::Player,
    };
    game.set_player_color(5);
    assert_eq!(game.game_grid[PLAYER_SEED].color, 5);
    assert_eq!(game.game_grid[57].color, 5);
    assert_eq!(game.game_grid[57].owned_by, OwnedBy::Player);
    // ownership and the other cells are untouched
    assert_eq!(game.game_grid[AI_SEED].color, 0);
    assert_eq!(game.game_grid[58].color, 0);
    assert_eq!(game.game_grid[58].owned_by, OwnedBy::Nobody);
    game.set_ai_color(6);
    assert_eq!(game.get_ai_color(), 6);
    assert_eq!(game.game_grid[PLAYER_SEED].color, 5);
}

#[test]
fn capture_scenario_on_the_literal_grid() {
    // Player seed at index 56 (x=0, y=7), AI seed at index 7 (x=7, y=0),
    // cells 57 and 58 forced to color 3, all else color 0, player seed
    // color 1. Proposing color 3 for Player captures exactly 57 and 58.
    let mut game = fixed_board();
    game.game_grid[57] = Block {
        color: 3,
        owned_by: OwnedBy::Nobody,
    };
    game.game_grid[58] = Block {
        color: 3,
        owned_by: OwnedBy::Nobody,
    };
    let before: Vec<Block> = game.game_grid.clone();

    let r = game.apply(OwnedBy::Player, 3);
    assert_eq!(r, Ok(()));

    for idx in 0..GRID_SIZE {
        let block = game.game_grid[idx];
        match idx {
            56 | 57 | 58 => {
                assert_eq!(block.color, 3);
                assert_eq!(block.owned_by, OwnedBy::Player);
            }
            _ => {
                assert_eq!(block, before[idx]);
            }
        }
    }

    // one more saturation captures zero additional cells
    let settled: Vec<Block> = game.game_grid.clone();
    game.saturate(OwnedBy::Player, 3);
    assert_eq!(game.game_grid, settled);
}

#[test]
fn proposal_of_ai_color_is_rejected_without_change() {
    let mut game = fixed_board();
    let before: Vec<Block> = game.game_grid.clone();
    let ai = game.get_ai_color();
    let r = game.apply(OwnedBy::Player, ai);
    assert_eq!(r, Err(MoveError::ForbiddenColor));
    assert_eq!(game.game_grid, before);
}

#[test]
fn proposal_of_own_color_is_rejected_without_change() {
    let mut game = fixed_board();
    let before: Vec<Block> = game.game_grid.clone();
    let r = game.apply(OwnedBy::Player, 1);
    assert_eq!(r, Err(MoveError::ForbiddenColor));
    assert_eq!(game.game_grid, before);
}

#[test]
fn out_of_range_color_is_rejected_without_change() {
    let mut game = fixed_board();
    let before: Vec<Block> = game.game_grid.clone();
    assert_eq!(
        game.apply(OwnedBy::Player, COLORS_NUM as u8),
        Err(MoveError::OutOfRangeColor)
    );
    assert_eq!(
        game.apply(OwnedBy::Player, 255),
        Err(MoveError::OutOfRangeColor)
    );
    assert_eq!(game.game_grid, before);
}

#[test]
fn validation_rejects_exactly_the_forbidden_set() {
    for c in 0..=255u8 {
        let mut game = fixed_board();
        let player = game.get_player_color();
        let ai = game.get_ai_color();
        let r = game.apply(OwnedBy::Player, c);
        if (c as usize) >= COLORS_NUM {
            assert_eq!(r, Err(MoveError::OutOfRangeColor));
        } else if c == player || c == ai {
            assert_eq!(r, Err(MoveError::ForbiddenColor));
        } else {
            assert_eq!(r, Ok(()));
        }
    }
}

#[test]
fn propagation_follows_chains_over_several_passes() {
    // a snake of color 2 from the player's corner up the first column and
    // along a row; every link needs the one before it
    let mut game = fixed_board();
    let chain = [48, 40, 32, 33, 34, 35];
    for &idx in chain.iter() {
        game.game_grid[idx] = Block {
            color: 2,
            owned_by: OwnedBy::Nobody,
        };
    }
    // a cell of color 2 that touches the chain only diagonally stays out
    game.game_grid[44] = Block {
        color: 2,
        owned_by: OwnedBy::Nobody,
    };
    assert_eq!(game.apply(OwnedBy::Player, 2), Ok(()));
    for &idx in chain.iter() {
        assert_eq!(game.game_grid[idx].owned_by, OwnedBy::Player);
        assert_eq!(game.game_grid[idx].color, 2);
    }
    assert_eq!(game.game_grid[44].owned_by, OwnedBy::Nobody);
    assert_eq!(game.game_grid[PLAYER_SEED].color, 2);
}

#[test]
fn no_matching_neighbor_is_a_no_op_beyond_recoloring() {
    // recoloring to 4 matches no unclaimed neighbor: only the region's own
    // color changes
    let mut game = fixed_board();
    let before: Vec<Block> = game.game_grid.clone();
    assert_eq!(game.apply(OwnedBy::Player, 4), Ok(()));
    for idx in 0..GRID_SIZE {
        if idx == PLAYER_SEED {
            assert_eq!(game.game_grid[idx].color, 4);
            assert_eq!(game.game_grid[idx].owned_by, OwnedBy::Player);
        } else {
            assert_eq!(game.game_grid[idx], before[idx]);
        }
    }
}

#[test]
fn ai_side_moves_are_symmetric() {
    let mut game = fixed_board();
    // cells next to the AI corner carrying color 5
    game.game_grid[6] = Block {
        color: 5,
        owned_by: OwnedBy::Nobody,
    };
    game.game_grid[15] = Block {
        color: 5,
        owned_by: OwnedBy::Nobody,
    };
    assert_eq!(game.apply(OwnedBy::AI, 5), Ok(()));
    assert_eq!(game.game_grid[AI_SEED].color, 5);
    assert_eq!(game.game_grid[AI_SEED].owned_by, OwnedBy::AI);
    assert_eq!(game.game_grid[6].owned_by, OwnedBy::AI);
    assert_eq!(game.game_grid[15].owned_by, OwnedBy::AI);
    assert_eq!(game.game_grid[PLAYER_SEED].owned_by, OwnedBy::Player);
}
