use tiles2048::animation::{animation_is_due, progress_permille, ANIMATION_MS};
use tiles2048::game::{Game, State, POLL_MS};
use tiles2048::grid::{front_cell, NCELLS, NCOLS, NROWS};
use tiles2048::tile::{Direction, Key, Tile};

fn put(g: &mut Game, x: usize, y: usize, v: usize) {
    g.grid[x * NROWS + y] = Tile::from_value(v);
}

fn value(g: &Game, x: usize, y: usize) -> usize {
    g.grid[x * NROWS + y].value
}

fn row(g: &Game, y: usize) -> Vec<usize> {
    (0..NCOLS).map(|x| value(g, x, y)).collect()
}

fn column(g: &Game, x: usize) -> Vec<usize> {
    (0..NROWS).map(|y| value(g, x, y)).collect()
}

fn grid_sum(g: &Game) -> usize {
    g.grid.iter().map(|t| t.value).sum()
}

fn clear_marks(g: &mut Game) {
    g.clear_blocked();
}

/// A full grid of 2 and 4 in alternation: no two neighbours are equal.
fn alternating_grid() -> Game {
    let mut g = Game::new();
    for x in 0..NCOLS {
        for y in 0..NROWS {
            put(&mut g, x, y, if (x + y) % 2 == 0 { 2 } else { 4 });
        }
    }
    g
}

#[test]
fn pair_merges_left() {
    let mut g = Game::new();
    put(&mut g, 0, 0, 2);
    put(&mut g, 1, 0, 2);
    let merges = g.move_all(Direction::Left);
    assert_eq!(row(&g, 0), vec![4, 0, 0, 0, 0]);
    assert!(g.moved);
    assert_eq!(g.score, 4);
    assert_eq!(merges, vec![4]);
}

#[test]
fn three_equal_merge_once_left() {
    let mut g = Game::new();
    put(&mut g, 0, 0, 2);
    put(&mut g, 1, 0, 2);
    put(&mut g, 2, 0, 2);
    g.move_all(Direction::Left);
    assert_eq!(row(&g, 0), vec![4, 2, 0, 0, 0]);
    assert!(g.moved);
    assert_eq!(g.score, 4);
}

#[test]
fn three_equal_merge_once_right() {
    let mut g = Game::new();
    put(&mut g, 0, 1, 2);
    put(&mut g, 1, 1, 2);
    put(&mut g, 2, 1, 2);
    g.move_all(Direction::Right);
    assert_eq!(row(&g, 1), vec![0, 0, 0, 2, 4]);
    assert_eq!(g.score, 4);
}

#[test]
fn tiles_telescope_to_the_far_edge() {
    let mut g = Game::new();
    put(&mut g, 0, 2, 8);
    put(&mut g, 2, 2, 4);
    g.move_all(Direction::Right);
    assert_eq!(row(&g, 2), vec![0, 0, 0, 8, 4]);
    assert_eq!(g.tiles_moving.len(), 2);
    assert_eq!(g.score, 0);
}

#[test]
fn column_moves_up_and_down() {
    let mut g = Game::new();
    put(&mut g, 3, 1, 4);
    put(&mut g, 3, 3, 4);
    g.move_all(Direction::Up);
    assert_eq!(column(&g, 3), vec![8, 0, 0, 0]);
    assert_eq!(g.score, 8);
    clear_marks(&mut g);
    put(&mut g, 3, 1, 2);
    g.move_all(Direction::Down);
    assert_eq!(column(&g, 3), vec![0, 0, 8, 2]);
}

#[test]
fn pairs_merge_separately() {
    let mut g = Game::new();
    put(&mut g, 0, 0, 2);
    put(&mut g, 1, 0, 2);
    put(&mut g, 2, 0, 4);
    put(&mut g, 3, 0, 4);
    let merges = g.move_all(Direction::Left);
    assert_eq!(row(&g, 0), vec![4, 8, 0, 0, 0]);
    assert_eq!(merges, vec![4, 8]);
    assert_eq!(g.score, 12);
}

#[test]
fn merged_tile_does_not_merge_again() {
    let mut g = Game::new();
    put(&mut g, 0, 0, 4);
    put(&mut g, 1, 0, 2);
    put(&mut g, 2, 0, 2);
    g.move_all(Direction::Left);
    assert_eq!(row(&g, 0), vec![4, 4, 0, 0, 0]);
    assert_eq!(g.score, 4);
}

#[test]
fn move_keeps_grid_sum_and_scores_merges() {
    let mut g = Game::new();
    put(&mut g, 0, 0, 2);
    put(&mut g, 1, 0, 2);
    put(&mut g, 4, 1, 16);
    put(&mut g, 4, 2, 16);
    put(&mut g, 2, 3, 8);
    let before = grid_sum(&g);
    let merges = g.move_all(Direction::Up);
    assert!(grid_sum(&g) >= before);
    assert_eq!(grid_sum(&g), before);
    assert_eq!(g.score, merges.iter().sum::<usize>());
    assert_eq!(merges, vec![32]);
}

#[test]
fn still_move_stays_still() {
    let mut g = Game::new();
    put(&mut g, 0, 0, 2);
    put(&mut g, 0, 1, 4);
    let merges = g.move_all(Direction::Left);
    assert!(!g.moved);
    assert!(merges.is_empty());
    let merges = g.move_all(Direction::Left);
    assert!(!g.moved);
    assert!(merges.is_empty());
    assert_eq!(value(&g, 0, 0), 2);
    assert_eq!(value(&g, 0, 1), 4);
}

#[test]
fn sweep_leaves_nothing_to_merge() {
    let mut g = Game::new();
    put(&mut g, 0, 0, 2);
    put(&mut g, 1, 0, 2);
    put(&mut g, 2, 0, 4);
    put(&mut g, 4, 0, 4);
    put(&mut g, 3, 2, 8);
    put(&mut g, 4, 2, 8);
    g.move_all(Direction::Left);
    assert!(g.moved);
    assert_eq!(row(&g, 0), vec![4, 8, 0, 0, 0]);
    assert_eq!(row(&g, 2), vec![16, 0, 0, 0, 0]);
    for y in 0..NROWS {
        for x in 1..NCOLS {
            let here = g.grid[x * NROWS + y];
            let ahead = g.grid[(x - 1) * NROWS + y];
            if !here.is_empty() {
                assert!(!ahead.is_empty());
                assert!(ahead.value != here.value || ahead.is_blocked() || here.is_blocked());
            }
        }
    }
}

#[test]
fn alternating_grid_cannot_move_and_loses() {
    let mut g = alternating_grid();
    assert!(!g.can_move());
    let before: Vec<usize> = g.grid.iter().map(|t| t.value).collect();
    assert!(!g.handle_key(Some(Key::Left)));
    let after: Vec<usize> = g.grid.iter().map(|t| t.value).collect();
    assert_eq!(before, after);
    assert_eq!(g.state, State::Lost);
    assert!(!g.moved);
}

#[test]
fn can_move_sees_empty_cell_and_equal_neighbours() {
    let mut g = alternating_grid();
    put(&mut g, 2, 2, 0);
    assert!(g.can_move());
    let mut g = alternating_grid();
    put(&mut g, 4, 0, 8);
    put(&mut g, 4, 1, 8);
    assert!(g.can_move());
    let mut g = alternating_grid();
    put(&mut g, 3, 3, 16);
    put(&mut g, 4, 3, 16);
    assert!(g.can_move());
    assert!(Game::new().can_move());
}

#[test]
fn spawn_fills_the_only_empty_cell() {
    let mut g = alternating_grid();
    put(&mut g, 1, 2, 0);
    assert!(g.can_move());
    g.add_tile();
    assert_eq!(g.points_appearing.len(), 1);
    let a = g.points_appearing[0];
    assert_eq!((a.position.x, a.position.y), (1, 2));
    assert!(a.value == 2 || a.value == 4);
    assert_eq!(value(&g, 1, 2), 0);
    g.finish_animation();
    assert!(g.points_appearing.is_empty());
    let v = value(&g, 1, 2);
    assert!(v == 2 || v == 4);
}

#[test]
fn spawn_on_full_grid_adds_nothing() {
    let mut g = alternating_grid();
    g.add_tile();
    assert!(g.points_appearing.is_empty());
    g.add_tile_at(0, 9);
    assert!(g.points_appearing.is_empty());
}

#[test]
fn spawn_at_picks_cell_and_value() {
    let mut g = alternating_grid();
    put(&mut g, 0, 1, 0);
    put(&mut g, 3, 2, 0);
    g.add_tile_at(1, 9);
    assert_eq!(g.points_appearing.len(), 1);
    assert_eq!((g.points_appearing[0].position.x, g.points_appearing[0].position.y), (3, 2));
    assert_eq!(g.points_appearing[0].value, 4);
    g.add_tile_at(2, 0);
    assert_eq!((g.points_appearing[1].position.x, g.points_appearing[1].position.y), (0, 1));
    assert_eq!(g.points_appearing[1].value, 2);
    assert_eq!(g.empty_cells(), vec![1, 14]);
}

#[test]
fn merge_to_winning_value_wins_and_stays_won() {
    let mut g = Game::new();
    put(&mut g, 0, 0, 1024);
    put(&mut g, 1, 0, 1024);
    assert!(!g.handle_key(Some(Key::Left)));
    assert_eq!(value(&g, 0, 0), 2048);
    assert_eq!(g.state, State::Won);
    assert_eq!(g.score, 2048);
    assert!(!g.handle_key(Some(Key::Right)));
    assert_eq!(g.state, State::Won);
    assert_eq!(value(&g, 0, 0), 2048);
    let mut full = alternating_grid();
    full.state = State::Won;
    full.handle_key(Some(Key::Up));
    assert_eq!(full.state, State::Won);
}

#[test]
fn larger_merge_does_not_win() {
    let mut g = Game::new();
    put(&mut g, 0, 0, 2048);
    put(&mut g, 0, 1, 2048);
    g.move_all(Direction::Up);
    assert_eq!(value(&g, 0, 0), 4096);
    assert_eq!(g.state, State::Playing);
}

#[test]
fn handle_key_moves_and_spawns() {
    let mut g = Game::new();
    put(&mut g, 4, 3, 2);
    assert!(!g.handle_key(Some(Key::Left)));
    assert_eq!(value(&g, 0, 3), 2);
    assert!(g.moved);
    assert_eq!(g.tiles_moving.len(), 1);
    assert_eq!(g.points_appearing.len(), 1);
    assert!(g.grid.iter().all(|t| !t.is_blocked()));
    let m = g.tiles_moving[0];
    assert_eq!((m.pold.x, m.pold.y, m.pnew.x, m.pnew.y), (4, 3, 0, 3));
    assert!(g.grid[3].pending);
    assert_eq!(g.grid[3].get(), 0);
    let a = g.points_appearing[0];
    g.handle_key(Some(Key::Char('x')));
    assert!(g.tiles_moving.is_empty());
    assert!(g.points_appearing.is_empty());
    assert_eq!(g.grid[3].get(), 2);
    let v = value(&g, a.position.x, a.position.y);
    assert!(v == 2 || v == 4);
    assert_eq!(g.state, State::Playing);
}

#[test]
fn handle_key_quit_and_timeout() {
    let mut g = Game::new();
    put(&mut g, 2, 2, 2);
    g.moved = true;
    assert!(!g.handle_key(None));
    assert!(!g.moved);
    assert_eq!(value(&g, 2, 2), 2);
    assert!(g.handle_key(Some(Key::Char('q'))));
    assert_eq!(value(&g, 2, 2), 2);
}

#[test]
fn tile_shows_old_value_while_pending() {
    let mut t = Tile::from_value(2);
    t.set(4);
    assert_eq!(t.get(), 4);
    t.set_pending(true);
    assert_eq!(t.get(), 2);
    t.set_pending(false);
    assert_eq!(t.get(), 4);
    assert!(!t.is_empty());
    assert!(Tile::new().is_empty());
    t.blocked(true);
    assert!(t.is_blocked());
    assert!(t == Tile::from_value(4));
    assert!(t != Tile::from_value(2));
}

#[test]
fn keys_and_directions() {
    assert_eq!(Key::Up.direction(), Some(Direction::Up));
    assert_eq!(Key::Right.direction(), Some(Direction::Right));
    assert_eq!(Key::Char('a').direction(), None);
    assert!(Key::Char('q').is_quit());
    assert!(!Key::Down.is_quit());
    assert_eq!(Direction::Up.offset(), (0, -1));
    assert_eq!(Direction::Down.offset(), (0, 1));
    assert_eq!(Direction::Left.offset(), (-1, 0));
    assert_eq!(Direction::Right.offset(), (1, 0));
    assert_eq!(front_cell(0, Direction::Left), None);
    assert_eq!(front_cell(5, Direction::Left), Some(1));
    assert_eq!(front_cell(4, Direction::Up), None);
    assert_eq!(front_cell(19, Direction::Down), None);
    assert_eq!(front_cell(15, Direction::Right), Some(19));
    assert_eq!(front_cell(17, Direction::Right), None);
    assert_eq!(NCELLS, 20);
}

#[test]
fn animation_timing() {
    assert_eq!(ANIMATION_MS, 500);
    assert_eq!(progress_permille(0), 0);
    assert_eq!(progress_permille(250), 500);
    assert_eq!(progress_permille(499), 998);
    assert_eq!(progress_permille(500), 1000);
    assert_eq!(progress_permille(60_000), 1000);
    assert!(!animation_is_due(495));
    assert!(animation_is_due(496));
    assert!(animation_is_due(u64::MAX));
}

#[test]
fn tick_ends_animation_when_due() {
    let mut g = Game::new();
    put(&mut g, 3, 0, 2);
    g.handle_key(Some(Key::Left));
    assert!(!g.tick(100));
    assert_eq!(g.tiles_moving.len(), 1);
    assert!(g.tick(600));
    assert!(g.tiles_moving.is_empty());
    assert!(g.points_appearing.is_empty());
    assert!(!g.grid[0].pending);
}

#[test]
fn room_for_move_guards_the_score() {
    let mut g = Game::new();
    assert!(g.room_for_move());
    put(&mut g, 0, 0, 2);
    g.score = usize::MAX - 40;
    assert!(g.room_for_move());
    g.score = usize::MAX - 39;
    assert!(!g.room_for_move());
    g.score = 0;
    put(&mut g, 1, 0, usize::MAX);
    assert!(!g.room_for_move());
}

#[test]
fn wait_is_short_while_animating() {
    let mut g = Game::new();
    assert_eq!(g.wait_timeout(), None);
    g.add_tile_at(0, 0);
    assert_eq!(g.wait_timeout(), Some(POLL_MS));
    assert_eq!(POLL_MS, 10);
    g.finish_animation();
    assert_eq!(g.wait_timeout(), None);
    put(&mut g, 4, 0, 2);
    g.handle_key(Some(Key::Left));
    assert_eq!(g.wait_timeout(), Some(10));
}

#[test]
fn merges_and_score_per_scenario() {
    let mut g = Game::new();
    put(&mut g, 0, 0, 2);
    put(&mut g, 1, 0, 2);
    put(&mut g, 2, 0, 4);
    g.move_all(Direction::Right);
    assert_eq!(row(&g, 0), vec![0, 0, 0, 4, 4]);
    assert_eq!(g.score, 4);
    let mut g = Game::new();
    put(&mut g, 1, 0, 2);
    put(&mut g, 2, 0, 2);
    let merges = g.move_all(Direction::Left);
    assert_eq!(row(&g, 0), vec![4, 0, 0, 0, 0]);
    assert_eq!(merges, vec![4]);
    assert_eq!(g.score, 4);
}
