use minesweeper::{cells, flatten, is_neighbour_of, max_dist, neighbours, seed, Cell, CellType,
    Game, GameError, GameState};

fn mine_count(g: &Game) -> usize {
    let mut n = 0;
    for c in cells(&g.size) {
        if matches!(g.get(&c).unwrap().typ, CellType::Mine) {
            n += 1;
        }
    }
    n
}

fn opened_count(g: &Game) -> usize {
    let mut n = 0;
    for c in cells(&g.size) {
        if g.get(&c).unwrap().opened {
            n += 1;
        }
    }
    n
}

#[test]
fn nei() {
    let i = neighbours(&[0, 1, 2, 3], &[4, 4, 4, 4]);
    println!("{i:?}");
}

#[test]
fn flatten_row_major() {
    assert_eq!(flatten(&[1, 2], &[3, 4]), Ok(6));
    assert_eq!(flatten(&[0, 0], &[3, 4]), Ok(0));
    assert_eq!(flatten(&[2, 3], &[3, 4]), Ok(11));
    assert_eq!(flatten(&[1], &[3, 4]), Err(GameError::DimensionMismatch));
    assert_eq!(flatten(&[1, 4], &[3, 4]), Err(GameError::OutOfRange));
}

#[test]
fn flatten_covers_every_index() {
    let dims = [3usize, 4, 2];
    let all = cells(&dims);
    assert_eq!(all.len(), 24);
    for (k, c) in all.iter().enumerate() {
        assert_eq!(flatten(c, &dims), Ok(k));
    }
}

#[test]
fn cells_row_major_order() {
    let all = cells(&[2, 3]);
    let expect: Vec<Vec<usize>> = vec![
        vec![0, 0],
        vec![0, 1],
        vec![0, 2],
        vec![1, 0],
        vec![1, 1],
        vec![1, 2],
    ];
    assert_eq!(all, expect);
}

#[test]
fn neighbourhood_sizes() {
    assert_eq!(neighbours(&[1, 1], &[3, 3]).len(), 9);
    assert_eq!(neighbours(&[0, 0], &[3, 3]).len(), 4);
    assert_eq!(neighbours(&[2, 2], &[3, 3]).len(), 4);
    assert_eq!(neighbours(&[0, 1], &[3, 3]).len(), 6);
    assert_eq!(neighbours(&[0], &[1]).len(), 1);
}

#[test]
fn neighbour_relation() {
    assert!(is_neighbour_of(&[1, 1], &[2, 2]));
    assert!(is_neighbour_of(&[1, 1], &[1, 1]));
    assert!(!is_neighbour_of(&[1, 1], &[3, 1]));
    assert_eq!(max_dist(&[1, 5], &[4, 3]), 3);
    assert_eq!(max_dist(&[2], &[2]), 0);
}

#[test]
fn rand_is_deterministic() {
    let mut a = seed(5);
    let mut b = seed(5);
    assert_eq!(a.rand(), b.rand());
    assert_eq!(a.rand(), b.rand());
    assert_ne!(seed(5).rand(), seed(6).rand());
}

#[test]
fn rejects_bad_configurations() {
    assert!(matches!(
        Game::new(vec![], 0, seed(1)),
        Err(GameError::InvalidConfiguration)
    ));
    assert!(matches!(
        Game::new(vec![0, 3], 0, seed(1)),
        Err(GameError::InvalidConfiguration)
    ));
    assert!(matches!(
        Game::new(vec![3, 3], 9, seed(1)),
        Err(GameError::InvalidConfiguration)
    ));
    assert!(Game::new(vec![3, 3], 8, seed(1)).is_ok());
}

#[test]
fn mine_count_invariant() {
    for m in [0usize, 1, 3, 7] {
        let g = Game::new(vec![3, 3], m, seed(11)).unwrap();
        assert_eq!(mine_count(&g), m);
    }
}

#[test]
fn layout_is_deterministic() {
    let a = Game::new(vec![3, 3, 3], 5, seed(99)).unwrap();
    let b = Game::new(vec![3, 3, 3], 5, seed(99)).unwrap();
    for c in cells(&a.size) {
        let ca: &Cell = a.get(&c).unwrap();
        let cb: &Cell = b.get(&c).unwrap();
        assert_eq!(ca, cb);
    }
}

#[test]
fn scenario_corner_mine_flood_fill() {
    // seed 2 places the single mine of a 3x3 board at (0, 0)
    let mut g = Game::new(vec![3, 3], 1, seed(2)).unwrap();
    assert!(matches!(g.get(&[0, 0]).unwrap().typ, CellType::Mine));
    assert_eq!(g.get(&[0, 1]).unwrap().typ, CellType::Number(1));
    assert_eq!(g.get(&[1, 0]).unwrap().typ, CellType::Number(1));
    assert_eq!(g.get(&[1, 1]).unwrap().typ, CellType::Number(1));
    assert_eq!(g.get(&[0, 2]).unwrap().typ, CellType::Number(0));
    assert_eq!(g.get(&[2, 0]).unwrap().typ, CellType::Number(0));
    assert_eq!(g.get(&[2, 2]).unwrap().typ, CellType::Number(0));
    assert_eq!(opened_count(&g), 0);
    // opening the far corner floods every non-mine cell, which wins at once
    g.selected = vec![2, 2];
    g.open();
    assert_eq!(g.state, GameState::Won);
    assert_eq!(opened_count(&g), 9);
}

#[test]
fn scenario_four_dimensions() {
    let g = Game::new(vec![4, 4, 4, 4], 6, seed(7)).unwrap();
    assert_eq!(mine_count(&g), 6);
    let nb = neighbours(&[1, 1, 1, 1], &[4, 4, 4, 4]);
    assert_eq!(nb.len(), 81);
    let mut distinct = nb.clone();
    distinct.sort();
    distinct.dedup();
    assert_eq!(distinct.len(), 81);
    let non_self = nb.iter().filter(|c| c.as_slice() != [1, 1, 1, 1]).count();
    assert_eq!(non_self, 80);
}

#[test]
fn scenario_flag_blocks_open() {
    let mut g = Game::new(vec![3, 3], 1, seed(2)).unwrap();
    // flagging the mine itself and opening it must change nothing
    g.selected = vec![0, 0];
    g.flag();
    assert!(g.get(&[0, 0]).unwrap().flagged);
    let dirty_before = g.updated_cells.len();
    g.open();
    assert_eq!(g.state, GameState::Normal);
    assert!(!g.get(&[0, 0]).unwrap().opened);
    assert!(g.get(&[0, 0]).unwrap().flagged);
    assert_eq!(g.updated_cells.len(), dirty_before);
    assert_eq!(opened_count(&g), 0);
}

#[test]
fn scenario_maximum_mines() {
    // seed 42 crowds a 3x3 board with 8 mines, leaving only (2, 2) free
    let mut g = Game::new(vec![3, 3], 8, seed(42)).unwrap();
    assert_eq!(mine_count(&g), 8);
    assert!(!matches!(g.get(&[2, 2]).unwrap().typ, CellType::Mine));
    g.selected = vec![2, 2];
    g.open();
    assert_eq!(g.state, GameState::Won);
}

#[test]
fn loss_reveals_whole_board() {
    let mut g = Game::new(vec![3, 3], 1, seed(2)).unwrap();
    g.selected = vec![2, 2];
    g.flag();
    g.selected = vec![0, 0];
    g.open();
    assert_eq!(g.state, GameState::Dead);
    for c in cells(&g.size) {
        let cell = g.get(&c).unwrap();
        assert!(cell.opened);
        assert!(!cell.flagged);
    }
}

#[test]
fn flag_twice_restores_cell() {
    let mut g = Game::new(vec![3, 3], 1, seed(2)).unwrap();
    g.selected = vec![1, 2];
    let before = *g.get(&[1, 2]).unwrap();
    g.flag();
    assert!(g.get(&[1, 2]).unwrap().flagged);
    g.flag();
    assert_eq!(*g.get(&[1, 2]).unwrap(), before);
    assert_eq!(g.updated_cells.len(), 2);
}

#[test]
fn open_on_opened_cell_is_noop() {
    // a larger sparse board where one open does not win the game
    let mut g = Game::new(vec![5, 5], 8, seed(3)).unwrap();
    let target = cells(&g.size)
        .into_iter()
        .find(|c| matches!(g.get(c).unwrap().typ, CellType::Number(k) if k > 0))
        .unwrap();
    g.selected = target.clone();
    g.open();
    assert_eq!(g.state, GameState::Normal);
    assert!(g.get(&target).unwrap().opened);
    let dirty = g.updated_cells.len();
    let opened = opened_count(&g);
    g.open();
    assert_eq!(g.state, GameState::Normal);
    assert_eq!(g.updated_cells.len(), dirty);
    assert_eq!(opened_count(&g), opened);
}

#[test]
fn flood_fill_opens_zero_region_only() {
    // seed 2, 3x3, mine at (0, 0): open a numbered cell first, no cascade
    let mut g = Game::new(vec![3, 3], 1, seed(2)).unwrap();
    g.selected = vec![1, 1];
    g.open();
    assert_eq!(g.state, GameState::Normal);
    assert!(g.get(&[1, 1]).unwrap().opened);
    assert_eq!(opened_count(&g), 1);
    assert!(!g.get(&[0, 0]).unwrap().opened);
    assert_eq!(g.updated_cells, vec![vec![1, 1]]);
}

#[test]
fn cursor_clamps_at_edges() {
    let mut g = Game::new(vec![3, 3], 1, seed(2)).unwrap();
    assert_eq!(g.selected, vec![0, 0]);
    g.move_cursor(0, false);
    assert_eq!(g.selected, vec![0, 0]);
    g.move_cursor(0, true);
    assert_eq!(g.selected, vec![1, 0]);
    g.move_cursor(1, true);
    g.move_cursor(1, true);
    g.move_cursor(1, true);
    assert_eq!(g.selected, vec![1, 2]);
}
