use treehouse::maze::{Cell, Maze};
use wyrand::WyRand;

#[test]
fn generate() {
    let mut maze = Maze::new(33, 17);
    let mut rng = WyRand::new(1234);
    maze.generate(&mut rng);
    assert_eq!(
        maze.render_default(),
        "##################################################################
##              ##                                  ##          ##
##########  ######  ##################  ######  ##  ##########  ##
##          ##      ##              ##  ##      ##      ##      ##
##  ######  ##  ######  ##########  ##  ##  ##########  ##  ######
##      ##  ##  ##  ##      ##  ##  ##  ##  ##      ##  ##      ##
##  ##  ######  ##  ######  ##  ##########  ##  ##  ##  ######  ##
##  ##              ##      ##          ##  ##  ##              ##
##  ##################  ##########  ##  ##  ######  ##########  ##
##          ##  ##      ##          ##  ##      ##  ##      ##  ##
##########  ##  ##  ######  ##########  ##  ##  ######  ##  ######
##  ##      ##  ##      ##  ##  ##      ##  ##      ##  ##      ##
##  ##  ######  ######  ##  ##  ##  ##############  ##  ######  ##
##      ##      ##  ##  ##  ##      ##          ##      ##      ##
##  ######  ##  ##  ##  ##  ##  ######  ######  ##########  ##  ##
##          ##      ##      ##          ##                  ##  ##
##################################################################
"
    );
}

#[test]
fn new_maze_is_solid() {
    let maze = Maze::new(3, 2);
    assert_eq!(maze.cells.len(), 6);
    assert!(maze.cells.iter().all(|&c| c == Cell::Solid));
    assert_eq!(maze.render_default(), "######\n######\n");
}

#[test]
fn get_after_set() {
    let mut maze = Maze::new(4, 3);
    maze.set((2, 1), Cell::Empty);
    assert_eq!(maze.get((2, 1)), Some(Cell::Empty));
    assert_eq!(maze.get((1, 2)), Some(Cell::Solid));
    assert_eq!(maze.cells[2 + 4], Cell::Empty);
}

#[test]
fn outside_the_maze() {
    let mut maze = Maze::new(4, 3);
    maze.set((4, 0), Cell::Empty);
    assert_eq!(maze.get((4, 0)), None);
    assert_eq!(maze.get((0, 3)), None);
    assert!(maze.cells.iter().all(|&c| c == Cell::Solid));
}

#[test]
fn maze_dimensions() {
    let maze = Maze::new(33, 17);
    assert_eq!(maze.maze_width(), 16);
    assert_eq!(maze.maze_height(), 8);
    assert_eq!(Maze::maze_cell(0), 1);
    assert_eq!(Maze::maze_cell(7), 15);
}

#[test]
fn render_with_custom_cells() {
    let mut maze = Maze::new(2, 2);
    maze.set((0, 0), Cell::Empty);
    let text = maze.render(|x, y, c| match (x, y, c) {
        (_, _, Cell::Empty) => ".",
        (1, 1, _) => "X",
        _ => "#",
    });
    assert_eq!(text, ".#\n#X\n");
}

#[test]
fn generate_only_clears_cells() {
    let mut maze = Maze::new(9, 9);
    let mut rng = WyRand::new(217);
    maze.generate(&mut rng);
    // the outer walls stay solid
    for i in 0..9 {
        assert_eq!(maze.get((i, 0)), Some(Cell::Solid));
        assert_eq!(maze.get((0, i)), Some(Cell::Solid));
        assert_eq!(maze.get((i, 8)), Some(Cell::Solid));
        assert_eq!(maze.get((8, i)), Some(Cell::Solid));
    }
    // every room of a perfect maze is reached
    for y in 0..4 {
        for x in 0..4 {
            assert_eq!(maze.get((2 * x + 1, 2 * y + 1)), Some(Cell::Empty));
        }
    }
}

#[test]
fn generating_a_solid_grid_clears_every_room() {
    for (width, height, seed) in [(9, 9, 217), (33, 17, 1234), (10, 6, 5), (3, 3, 0)] {
        let mut maze = Maze::new(width, height);
        let mut rng = WyRand::new(seed);
        maze.generate(&mut rng);
        for y in (1..height).step_by(2) {
            for x in (1..width).step_by(2) {
                assert_eq!(maze.get((x, y)), Some(Cell::Empty), "room ({x}, {y}) of {width}x{height}");
            }
        }
    }
}

#[test]
fn generated_mazes_are_perfect() {
    for (width, height, seed) in [(9, 9, 217), (33, 17, 1234), (11, 7, 42)] {
        let mut maze = Maze::new(width, height);
        let mut rng = WyRand::new(seed);
        maze.generate(&mut rng);
        let rooms = (width / 2) * (height / 2);
        let empty = maze.cells.iter().filter(|&&c| c == Cell::Empty).count() as u32;
        assert_eq!(empty, 2 * rooms - 1);
        for y in 0..height {
            for x in 0..width {
                let border = x == 0 || y == 0 || x == width - 1 || y == height - 1;
                if border || (x % 2 == 0 && y % 2 == 0) {
                    assert_eq!(maze.get((x, y)), Some(Cell::Solid));
                }
            }
        }
        // Every empty cell can be reached from the first room.
        let mut seen = vec![false; (width * height) as usize];
        let mut todo = vec![(1u32, 1u32)];
        seen[(1 + width) as usize] = true;
        while let Some((x, y)) = todo.pop() {
            for (nx, ny) in [(x - 1, y), (x + 1, y), (x, y - 1), (x, y + 1)] {
                let i = (nx + ny * width) as usize;
                if maze.get((nx, ny)) == Some(Cell::Empty) && !seen[i] {
                    seen[i] = true;
                    todo.push((nx, ny));
                }
            }
        }
        assert_eq!(seen.iter().filter(|&&s| s).count() as u32, empty);
    }
}
