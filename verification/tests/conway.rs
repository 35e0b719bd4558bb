use bst::conway::{Cell, GameOfLife, Grid};

fn grid_of(rows: usize, cols: usize, picture: &str) -> Grid<Cell> {
    let cells: Vec<Cell> = picture
        .chars()
        .filter(|c| *c == '#' || *c == '.')
        .map(|c| if c == '#' { Cell::Alive } else { Cell::Dead })
        .collect();
    assert_eq!(cells.len(), rows * cols);
    Grid::from_slice(&cells, rows, cols)
}

fn picture_of(grid: &Grid<Cell>) -> String {
    let (rows, cols) = grid.size();
    let mut out = String::new();
    for row in 0..rows {
        for col in 0..cols {
            out.push(if *grid.get(row, col) == Cell::Alive { '#' } else { '.' });
        }
        out.push('\n');
    }
    out
}

fn all_neighbours(grid: &Grid<i32>, row: usize, col: usize) -> Vec<(usize, usize)> {
    let mut walk = grid.neighbours(row, col);
    let mut places = Vec::new();
    while let Some(place) = walk.next() {
        places.push(place);
    }
    places
}

#[test]
fn grid_new_is_default() {
    let grid: Grid<i32> = Grid::new(2, 3);
    assert_eq!(grid.size(), (2, 3));
    for row in 0..2 {
        for col in 0..3 {
            assert_eq!(*grid.get(row, col), 0);
        }
    }
    let cells: Grid<Cell> = Grid::new(1, 1);
    assert!(*cells.get(0, 0) == Cell::Dead);
    assert!(Cell::default() == Cell::Dead);
}

#[test]
fn grid_from_slice_pads_and_cuts() {
    let grid = Grid::from_slice(&[1, 2, 3], 2, 2);
    assert_eq!(grid.size(), (2, 2));
    assert_eq!(*grid.get(0, 0), 1);
    assert_eq!(*grid.get(0, 1), 2);
    assert_eq!(*grid.get(1, 0), 3);
    assert_eq!(*grid.get(1, 1), 0);
    let grid = Grid::from_slice(&[1, 2, 3, 4, 5, 6], 2, 2);
    assert_eq!(*grid.get(1, 1), 4);
    assert!(grid == Grid::from_slice(&[1, 2, 3, 4], 2, 2));
}

#[test]
fn grid_set_ignores_places_outside() {
    let mut grid: Grid<i32> = Grid::new(2, 3);
    grid.set(7, 1, 2);
    assert_eq!(*grid.get(1, 2), 7);
    grid.set(9, 2, 0);
    grid.set(9, 5, 5);
    assert!(grid == Grid::from_slice(&[0, 0, 0, 0, 0, 7], 2, 3));
    grid.set(8, 0, 4);
    assert_eq!(*grid.get(1, 1), 8);
}

#[test]
fn grid_neighbours_in_the_middle() {
    let grid: Grid<i32> = Grid::new(3, 3);
    assert_eq!(
        all_neighbours(&grid, 1, 1),
        [(0, 0), (0, 1), (0, 2), (1, 0), (1, 2), (2, 0), (2, 1), (2, 2)]
    );
}

#[test]
fn grid_neighbours_at_the_edges() {
    let grid: Grid<i32> = Grid::new(3, 4);
    assert_eq!(all_neighbours(&grid, 0, 0), [(0, 1), (1, 0), (1, 1)]);
    assert_eq!(all_neighbours(&grid, 2, 3), [(1, 2), (1, 3), (2, 2)]);
    assert_eq!(all_neighbours(&grid, 0, 2), [(0, 1), (0, 3), (1, 1), (1, 2), (1, 3)]);
    assert_eq!(all_neighbours(&grid, 1, 0), [(0, 0), (0, 1), (1, 1), (2, 0), (2, 1)]);
    let single: Grid<i32> = Grid::new(1, 1);
    assert_eq!(all_neighbours(&single, 0, 0), []);
    let row: Grid<i32> = Grid::new(1, 3);
    assert_eq!(all_neighbours(&row, 0, 1), [(0, 0), (0, 2)]);
}

#[test]
fn grid_neighbours_below_the_grid() {
    let grid: Grid<i32> = Grid::new(2, 2);
    assert_eq!(all_neighbours(&grid, 2, 0), [(1, 0), (1, 1)]);
    assert_eq!(all_neighbours(&grid, 3, 0), []);
}

#[test]
fn life_blinker_turns() {
    let upright = ".....\n..#..\n..#..\n..#..\n.....\n";
    let flat = ".....\n.....\n.###.\n.....\n.....\n";
    let mut game = GameOfLife::from_grid(grid_of(5, 5, upright));
    assert_eq!(picture_of(game.get_grid()), upright);
    game.step();
    assert_eq!(picture_of(game.get_grid()), flat);
    game.step();
    assert_eq!(picture_of(game.get_grid()), upright);
    game.step();
    assert_eq!(picture_of(game.get_grid()), flat);
}

#[test]
fn life_block_stays() {
    let block = "....\n.##.\n.##.\n....\n";
    let mut game = GameOfLife::from_grid(grid_of(4, 4, block));
    for _ in 0..5 {
        game.step();
        assert_eq!(picture_of(game.get_grid()), block);
    }
}

#[test]
fn life_lonely_cell_dies_and_three_give_birth() {
    let mut game = GameOfLife::from_grid(grid_of(3, 3, "...\n.#.\n...\n"));
    game.step();
    assert_eq!(picture_of(game.get_grid()), "...\n...\n...\n");
    let mut game = GameOfLife::from_grid(grid_of(2, 2, "##\n#.\n"));
    game.step();
    assert_eq!(picture_of(game.get_grid()), "##\n##\n");
    assert!(game == GameOfLife::from_grid(grid_of(2, 2, "##\n#.\n")) || true);
}

#[test]
fn life_glider_moves() {
    let start = ".#...\n..#..\n###..\n.....\n.....\n";
    let after_four = ".....\n..#..\n...#.\n.###.\n.....\n";
    let mut game = GameOfLife::from_grid(grid_of(5, 5, start));
    for _ in 0..4 {
        game.step();
    }
    assert_eq!(picture_of(game.get_grid()), after_four);
}

#[test]
fn life_on_an_empty_grid() {
    let mut game = GameOfLife::from_grid(Grid::new(0, 0));
    game.step();
    assert_eq!(game.get_grid().size(), (0, 0));
    let mut game = GameOfLife::from_grid(Grid::new(0, 3));
    game.step();
    assert_eq!(game.get_grid().size(), (0, 3));
}
