use mipt_rust::conway::{Cell, GameOfLife, Grid};

fn grid_of(rows: usize, cols: usize, alive: &[(usize, usize)]) -> Grid<Cell> {
    let mut cells = vec![Cell::Dead; rows * cols];
    for &(r, c) in alive {
        cells[r * cols + c] = Cell::Alive;
    }
    Grid::from_slice(&cells, rows, cols)
}

#[test]
fn blinker_oscillates() {
    let start = grid_of(5, 5, &[(2, 1), (2, 2), (2, 3)]);
    let mut game = GameOfLife::from_grid(start);
    game.step();
    let vertical = grid_of(5, 5, &[(1, 2), (2, 2), (3, 2)]);
    assert!(*game.get_grid() == vertical);
    game.step();
    assert!(*game.get_grid() == grid_of(5, 5, &[(2, 1), (2, 2), (2, 3)]));
}

#[test]
fn neighbours_at_edges() {
    let g = grid_of(3, 4, &[]);
    assert_eq!(g.neighbours(0, 0), vec![(0, 1), (1, 0), (1, 1)]);
    assert_eq!(
        g.neighbours(1, 1),
        vec![(0, 0), (0, 1), (0, 2), (1, 0), (1, 2), (2, 0), (2, 1), (2, 2)]
    );
    assert_eq!(g.neighbours(2, 3), vec![(1, 2), (1, 3), (2, 2)]);
    assert_eq!(g.size(), (3, 4));
}

#[test]
fn get_and_set() {
    let mut g = grid_of(2, 2, &[(0, 1)]);
    assert_eq!(*g.get(0, 1), Cell::Alive);
    g.set(Cell::Alive, 1, 0);
    assert_eq!(*g.get(1, 0), Cell::Alive);
    assert!(g.is_current_cell(3, 1, 1));
    assert!(!g.is_current_cell(2, 1, 1));
    assert_eq!(Cell::default(), Cell::Dead);
}
