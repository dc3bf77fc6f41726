use minesweeper::{Board, Game, GameError, MineOrHint, Winstate};

fn game_with_mines(width: usize, height: usize, mines: Vec<usize>) -> Game {
    let board = Game::gen_empty(width, height).unwrap();
    let mut game = Game::from_board(board);
    game.place_mines_at(&mines);
    game
}

fn revealed(game: &Game) -> Vec<usize> {
    let mut out = Vec::new();
    for t in game.board.tiles.iter() {
        if !t.hidden {
            out.push(t.id);
        }
    }
    out
}

fn mined_count(board: &Board) -> usize {
    board.tiles.iter().filter(|t| t.mined).count()
}

fn sorted(mut v: Vec<usize>) -> Vec<usize> {
    v.sort();
    v
}

#[test]
fn gen_empty_builds_fresh_tiles() {
    let board = Game::gen_empty(4, 3).unwrap();
    assert_eq!(board.tiles.len(), 12);
    assert_eq!(board.width, 4);
    assert_eq!(board.height, 3);
    for (i, t) in board.tiles.iter().enumerate() {
        assert_eq!(t.id, i);
        assert!(t.hidden && !t.marked && !t.mined);
    }
}

#[test]
fn gen_empty_rejects_zero_dimensions() {
    assert!(matches!(Game::gen_empty(0, 5), Err(GameError::InvalidDimensions)));
    assert!(matches!(Game::gen_empty(5, 0), Err(GameError::InvalidDimensions)));
}

#[test]
fn new_game_rejects_bad_configuration() {
    assert!(matches!(Game::new_game(0, 3, 0), Err(GameError::InvalidDimensions)));
    assert!(matches!(Game::new_game(3, 3, 10), Err(GameError::InvalidMineCount)));
}

#[test]
fn new_game_places_exactly_the_mines_asked_for() {
    for k in [0usize, 1, 5, 40, 99, 100] {
        let game = Game::new_game(10, 10, k).unwrap();
        assert_eq!(mined_count(&game.board), k);
        assert_eq!(game.winstate, Winstate::InProgress);
        assert_eq!(game.marked_count, 0);
        assert!(game.board.tiles.iter().all(|t| t.hidden && !t.marked));
    }
}

#[test]
fn set_mines_on_a_full_board_mines_every_tile() {
    let mut game = Game::from_board(Game::gen_empty(3, 2).unwrap());
    assert_eq!(game.set_mines(6), Ok(()));
    assert!(game.board.tiles.iter().all(|t| t.mined));
}

#[test]
fn set_mines_rejects_too_many() {
    let mut game = Game::from_board(Game::gen_empty(3, 2).unwrap());
    assert_eq!(game.set_mines(7), Err(GameError::InvalidMineCount));
    assert_eq!(mined_count(&game.board), 0);
}

#[test]
fn place_mines_at_marks_listed_tiles() {
    let game = game_with_mines(3, 3, vec![8, 0, 4]);
    let mined: Vec<usize> = game.board.tiles.iter().filter(|t| t.mined).map(|t| t.id).collect();
    assert_eq!(mined, vec![0, 4, 8]);
}

#[test]
fn neighbours_of_corner_edge_and_interior() {
    let board = Game::gen_empty(3, 3).unwrap();
    assert_eq!(sorted(board.neighbours(0)), vec![1, 3, 4]);
    assert_eq!(sorted(board.neighbours(1)), vec![0, 2, 3, 4, 5]);
    assert_eq!(sorted(board.neighbours(4)), vec![0, 1, 2, 3, 5, 6, 7, 8]);
    assert_eq!(sorted(board.neighbours(8)), vec![4, 5, 7]);
}

#[test]
fn neighbours_counts_on_every_tile() {
    let board = Game::gen_empty(5, 4).unwrap();
    for id in 0..20 {
        let n = board.neighbours(id);
        assert!(n.len() >= 3 && n.len() <= 8);
        assert!(!n.contains(&id));
        assert!(n.iter().all(|&x| x < 20));
        let mut d = sorted(n.clone());
        d.dedup();
        assert_eq!(d.len(), n.len());
    }
}

#[test]
fn neighbours_on_a_single_row() {
    let board = Game::gen_empty(4, 1).unwrap();
    assert_eq!(sorted(board.neighbours(0)), vec![1]);
    assert_eq!(sorted(board.neighbours(2)), vec![1, 3]);
    let single = Game::gen_empty(1, 1).unwrap();
    assert!(single.neighbours(0).is_empty());
}

#[test]
fn coordinates_round_trip() {
    let board = Game::gen_empty(4, 3).unwrap();
    assert_eq!(board.index_to_pair(6), (1, 2));
    assert_eq!(board.pair_to_index(1, 2), 6);
    for id in 0..12 {
        let (i, j) = board.index_to_pair(id);
        assert_eq!(board.pair_to_index(i, j), id);
    }
}

#[test]
fn mine_or_hint_counts_mined_neighbours() {
    let game = game_with_mines(3, 3, vec![0, 2, 8]);
    assert_eq!(game.board.mine_or_hint(0), MineOrHint::Mine);
    assert_eq!(game.board.mine_or_hint(1), MineOrHint::Hint(2));
    assert_eq!(game.board.mine_or_hint(4), MineOrHint::Hint(3));
    assert_eq!(game.board.mine_or_hint(6), MineOrHint::Hint(0));
    assert_eq!(game.board.mine_or_hint(5), MineOrHint::Hint(2));
}

#[test]
fn hint_of_interior_tile_surrounded_by_mines() {
    let game = game_with_mines(3, 3, vec![0, 1, 2, 3, 5, 6, 7, 8]);
    assert_eq!(game.board.mine_or_hint(4), MineOrHint::Hint(8));
}

#[test]
fn reveal_next_to_centre_mine_opens_one_tile() {
    let mut game = game_with_mines(3, 3, vec![4]);
    assert_eq!(game.guess(0), Ok(Winstate::InProgress));
    assert_eq!(revealed(&game), vec![0]);
}

#[test]
fn reveal_far_from_corner_mine_opens_everything_else_and_wins() {
    let mut game = game_with_mines(3, 3, vec![8]);
    assert_eq!(game.guess(0), Ok(Winstate::Won));
    assert_eq!(game.winstate, Winstate::Won);
    assert!(game.board.tiles.iter().all(|t| !t.hidden));
}

#[test]
fn cascade_stops_at_the_border_of_the_empty_region() {
    // Column 2 of a 5 by 3 board is all mines: the left part opens, the
    // right part stays hidden.
    let mut game = game_with_mines(5, 3, vec![2, 7, 12]);
    assert_eq!(game.guess(0), Ok(Winstate::InProgress));
    assert_eq!(revealed(&game), vec![0, 1, 5, 6, 10, 11]);
}

#[test]
fn cascade_opens_zero_neighbours_of_a_numbered_tile() {
    // Mine at 0 on a 4 by 1 board: hints are 1, 0, 0 for tiles 1, 2, 3.
    let mut game = game_with_mines(4, 1, vec![0]);
    assert_eq!(game.guess(1), Ok(Winstate::Won));
    assert_eq!(revealed(&game), vec![0, 1, 2, 3]);
}

#[test]
fn numbered_border_does_not_open_further() {
    // Mines at both ends of a 7 by 1 board: tiles 1 and 5 are numbered,
    // tiles 2 to 4 have no mined neighbour.
    let mut game = game_with_mines(7, 1, vec![0, 6]);
    assert_eq!(game.guess(3), Ok(Winstate::Won));
    let mut other = game_with_mines(7, 1, vec![0, 3, 6]);
    assert_eq!(other.guess(1), Ok(Winstate::InProgress));
    assert_eq!(revealed(&other), vec![1]);
}

#[test]
fn cascade_takes_marks_off_what_it_opens() {
    let mut game = game_with_mines(4, 4, vec![15]);
    assert_eq!(game.mark(5), Ok(()));
    assert_eq!(game.mark(14), Ok(()));
    assert_eq!(game.marked_count, 2);
    assert_eq!(game.guess(0), Ok(Winstate::Won));
    assert!(!game.board.tiles[5].hidden);
    assert!(!game.board.tiles[5].marked);
    // Tile 14 is numbered and next to a tile without mines around it, so it
    // opens too.
    assert!(!game.board.tiles[14].hidden);
    assert_eq!(game.marked_count, 0);
}

#[test]
fn marked_count_follows_the_marks() {
    let mut game = game_with_mines(3, 3, vec![4]);
    game.mark(0).unwrap();
    game.mark(1).unwrap();
    game.mark(2).unwrap();
    game.unmark(1).unwrap();
    let live = game.board.tiles.iter().filter(|t| t.marked).count();
    assert_eq!(game.marked_count, 2);
    assert_eq!(live, 2);
}

#[test]
fn losing_reveals_unmarked_mines_only() {
    let mut game = game_with_mines(3, 3, vec![0, 4, 8]);
    game.mark(8).unwrap();
    game.mark(1).unwrap();
    assert_eq!(game.guess(4), Ok(Winstate::Lost));
    assert_eq!(game.winstate, Winstate::Lost);
    assert!(!game.board.tiles[4].hidden);
    assert!(!game.board.tiles[0].hidden);
    assert!(game.board.tiles[8].hidden);
    assert!(game.board.tiles[1].hidden);
    assert_eq!(revealed(&game), vec![0, 4]);
}

#[test]
fn winning_reveals_every_mine_marked_or_not() {
    let mut game = game_with_mines(2, 2, vec![0, 3]);
    game.mark(0).unwrap();
    assert_eq!(game.guess(1), Ok(Winstate::InProgress));
    assert_eq!(game.guess(2), Ok(Winstate::Won));
    assert!(game.board.tiles.iter().all(|t| !t.hidden));
}

#[test]
fn mark_then_unmark_restores_the_game() {
    let mut game = game_with_mines(3, 3, vec![4]);
    game.guess(0).unwrap();
    let before: Vec<_> = game.board.tiles.clone();
    let count = game.marked_count;
    game.mark(7).unwrap();
    assert!(game.board.tiles[7].marked);
    game.unmark(7).unwrap();
    assert_eq!(game.board.tiles, before);
    assert_eq!(game.marked_count, count);
}

#[test]
fn invalid_tile_states_are_refused() {
    let mut game = game_with_mines(3, 3, vec![4]);
    assert_eq!(game.mark(9), Err(GameError::InvalidTileState));
    assert_eq!(game.unmark(0), Err(GameError::InvalidTileState));
    assert_eq!(game.guess(9), Err(GameError::InvalidTileState));
    game.guess(0).unwrap();
    assert_eq!(game.mark(0), Err(GameError::InvalidTileState));
    assert_eq!(game.guess(0), Err(GameError::InvalidTileState));
    game.mark(1).unwrap();
    assert_eq!(game.mark(1), Err(GameError::InvalidTileState));
    assert_eq!(game.guess(1), Err(GameError::InvalidTileState));
    assert_eq!(game.marked_count, 1);
}

#[test]
fn ended_game_refuses_moves() {
    let mut game = game_with_mines(2, 2, vec![0]);
    assert_eq!(game.guess(0), Ok(Winstate::Lost));
    assert_eq!(game.guess(1), Err(GameError::GameEnded));
    assert_eq!(game.mark(1), Err(GameError::GameEnded));
    assert_eq!(game.unmark(1), Err(GameError::GameEnded));
    assert!(game.board.tiles[1].hidden);
}

#[test]
fn winstate_messages() {
    assert_eq!(Winstate::Won.message(), "You won!");
    assert_eq!(Winstate::Lost.message(), "You lost!");
    assert_eq!(Winstate::InProgress.message(), "Game in progress...");
}
