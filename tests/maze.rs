use maze::canvas::Canvas;
use maze::maze::{BorderType, Cell, Maze, MoveDirection};
use rand::rngs::StdRng;
use rand::SeedableRng;

const BACKGROUND: (u8, u8, u8) = (248, 248, 248);
const WALL: (u8, u8, u8) = (128, 128, 128);
const ACCENT: (u8, u8, u8) = (252, 3, 94);

fn is_wall(b: BorderType) -> bool {
    b == BorderType::Wall
}

fn count_passages(m: &Maze) -> u32 {
    let mut n = 0;
    for r in 0..m.height {
        for c in 0..m.width {
            let cell = m.get_cell(r, c);
            if c + 1 < m.width && cell.right == BorderType::Passage {
                n += 1;
            }
            if r + 1 < m.height && cell.down == BorderType::Passage {
                n += 1;
            }
        }
    }
    n
}

fn assert_symmetric(m: &Maze) {
    for r in 0..m.height {
        for c in 0..m.width {
            let cell = m.get_cell(r, c);
            if c + 1 < m.width {
                assert_eq!(cell.right, m.get_cell(r, c + 1).left);
            }
            if r + 1 < m.height {
                assert_eq!(cell.down, m.get_cell(r + 1, c).up);
            }
            if c == 0 {
                assert!(is_wall(cell.left));
            }
            if c + 1 == m.width {
                assert!(is_wall(cell.right));
            }
            if r == 0 {
                assert!(is_wall(cell.up));
            }
            if r + 1 == m.height {
                assert!(is_wall(cell.down));
            }
        }
    }
}

fn reachable_count(m: &Maze) -> u32 {
    let w = m.width as usize;
    let h = m.height as usize;
    let mut seen = vec![false; w * h];
    let mut todo = vec![(0usize, 0usize)];
    seen[0] = true;
    let mut n = 0;
    while let Some((r, c)) = todo.pop() {
        n += 1;
        let cell = m.get_cell(r as u32, c as u32);
        let mut next = Vec::new();
        if cell.left == BorderType::Passage {
            next.push((r, c - 1));
        }
        if cell.right == BorderType::Passage {
            next.push((r, c + 1));
        }
        if cell.up == BorderType::Passage {
            next.push((r - 1, c));
        }
        if cell.down == BorderType::Passage {
            next.push((r + 1, c));
        }
        for (a, b) in next {
            if !seen[a * w + b] {
                seen[a * w + b] = true;
                todo.push((a, b));
            }
        }
    }
    n
}

fn pixel(c: &Canvas, x: u32, y: u32) -> (u8, u8, u8) {
    c.get(x, y).unwrap()
}

#[test]
fn cell_new_is_walled_and_unvisited() {
    let c = Cell::new(3, 5);
    assert_eq!(c.row_index, 3);
    assert_eq!(c.col_index, 5);
    assert!(!c.visited);
    assert!(is_wall(c.left) && is_wall(c.up) && is_wall(c.right) && is_wall(c.down));
}

#[test]
fn maze_new_starts_at_origin() {
    let m = Maze::new(3, 2);
    assert_eq!(m.width, 3);
    assert_eq!(m.height, 2);
    assert_eq!(m.visited_count, 1);
    assert_eq!(m.current_position, (0, 0));
    assert_eq!(m.start_position, (0, 0));
    assert_eq!(m.moves, vec![(0, 0)]);
    assert_eq!(m.total_cell_count, 6);
    assert_eq!(m.max_len, 1);
    for r in 0..2 {
        for c in 0..3 {
            let cell = m.get_cell(r, c);
            assert_eq!(cell.visited, r == 0 && c == 0);
            assert_eq!((cell.row_index, cell.col_index), (r, c));
            assert_eq!(count_passages(&m), 0);
        }
    }
}

#[test]
fn available_moves_in_fixed_order() {
    let m = Maze::new(3, 3);
    assert_eq!(m.get_available_moves(), vec![MoveDirection::Right, MoveDirection::Down]);
}

#[test]
fn step_opens_both_sides() {
    let mut m = Maze::new(3, 3);
    m.step(1);
    assert_eq!(m.current_position, (1, 0));
    assert_eq!(m.get_cell(0, 0).down, BorderType::Passage);
    assert_eq!(m.get_cell(1, 0).up, BorderType::Passage);
    assert!(m.get_cell(1, 0).visited);
    assert_eq!(m.visited_count, 2);
    assert_eq!(m.moves, vec![(0, 0), (1, 0)]);
    assert_eq!(m.start_position, (1, 0));
    assert_eq!(m.max_len, 2);
    assert_eq!(
        m.get_available_moves(),
        vec![MoveDirection::Right, MoveDirection::Down]
    );
}

#[test]
fn step_backtracks_when_stuck() {
    let mut m = Maze::new(2, 1);
    m.step(0);
    assert_eq!(m.current_position, (0, 1));
    assert!(m.get_available_moves().is_empty());
    let mut m2 = Maze::new(3, 2);
    m2.step(0);
    m2.step(1);
    m2.step(0);
    assert_eq!(m2.current_position, (1, 0));
    assert!(m2.get_available_moves().is_empty());
    assert_eq!(m2.visited_count, 4);
    m2.step(0);
    assert_eq!(m2.current_position, (1, 0));
    assert_eq!(m2.moves, vec![(0, 0), (0, 1), (1, 1)]);
    m2.step(0);
    assert_eq!(m2.current_position, (1, 1));
    assert_eq!(m2.moves, vec![(0, 0), (0, 1)]);
    assert_eq!(m2.visited_count, 4);
    m2.step(0);
    assert_eq!(m2.current_position, (1, 2));
    assert_eq!(m2.moves, vec![(0, 0), (0, 1), (1, 2)]);
    assert_eq!(m2.start_position, (1, 0));
    assert_eq!(m2.max_len, 4);
}

#[test]
fn generation_covers_every_cell() {
    for (w, h) in [(1, 1), (2, 1), (1, 5), (4, 4), (7, 3), (10, 10)] {
        let mut m = Maze::new(w, h);
        m.generate_maze();
        assert_eq!(m.visited_count, w * h);
        for r in 0..h {
            for c in 0..w {
                assert!(m.get_cell(r, c).visited);
            }
        }
        assert_eq!(count_passages(&m), w * h - 1);
        assert_eq!(reachable_count(&m), w * h);
        assert_symmetric(&m);
        assert!(m.moves.len() as u32 <= w * h);
        let (sr, sc) = m.start_position;
        assert!(sr < h && sc < w && m.get_cell(sr, sc).visited);
    }
}

#[test]
fn seeded_generation_is_repeatable() {
    let mut a = Maze::new(6, 5);
    let mut b = Maze::new(6, 5);
    a.generate_maze_with(&mut StdRng::seed_from_u64(7));
    b.generate_maze_with(&mut StdRng::seed_from_u64(7));
    assert_eq!(a.cells, b.cells);
    assert_eq!(a.start_position, b.start_position);
    assert_eq!(count_passages(&a), 29);
    assert_eq!(reachable_count(&a), 30);
}

#[test]
fn one_by_one_maze() {
    let mut m = Maze::new(1, 1);
    assert_eq!(m.visited_count, 1);
    m.generate_maze();
    assert_eq!(m.visited_count, 1);
    assert_eq!(m.moves, vec![(0, 0)]);
    assert_eq!(m.current_position, (0, 0));
    let cell = m.get_cell(0, 0);
    assert!(is_wall(cell.left) && is_wall(cell.up) && is_wall(cell.right) && is_wall(cell.down));
    assert_eq!(m.start_position, (0, 0));
    let img = m.render(4);
    assert_eq!(img.size(), (4, 4));
    for k in 0..4 {
        assert_eq!(pixel(&img, k, 0), WALL);
        assert_eq!(pixel(&img, k, 3), WALL);
        assert_eq!(pixel(&img, 0, k), WALL);
        assert_eq!(pixel(&img, 3, k), WALL);
    }
    assert_eq!(pixel(&img, 1, 1), BACKGROUND);
    assert_eq!(pixel(&img, 2, 1), ACCENT);
    assert_eq!(pixel(&img, 1, 2), ACCENT);
    assert_eq!(pixel(&img, 2, 2), ACCENT);
    assert_eq!(img.get(4, 0), None);
}

#[test]
fn two_by_one_maze() {
    let mut m = Maze::new(2, 1);
    m.generate_maze();
    let a = m.get_cell(0, 0);
    let b = m.get_cell(0, 1);
    assert_eq!(a.right, BorderType::Passage);
    assert_eq!(b.left, BorderType::Passage);
    assert!(is_wall(a.left) && is_wall(a.up) && is_wall(a.down));
    assert!(is_wall(b.right) && is_wall(b.up) && is_wall(b.down));
    assert_eq!(m.start_position, (0, 1));
    assert_eq!(m.current_position, (0, 1));
    assert_eq!(m.moves, vec![(0, 0), (0, 1)]);
    assert_eq!(m.visited_count, 2);
    let res = 5;
    let img = m.render(res);
    assert_eq!(img.size(), (2 * res, res));
    // no wall line down the shared boundary, away from the top and bottom walls
    for y in 1..res - 1 {
        assert_ne!(pixel(&img, res - 1, y), WALL);
        assert_ne!(pixel(&img, res, y), WALL);
        assert_eq!(pixel(&img, 0, y), WALL);
        assert_eq!(pixel(&img, 2 * res - 1, y), WALL);
    }
    assert_eq!(pixel(&img, 4, 0), WALL);
    assert_eq!(pixel(&img, 5, 4), WALL);
    // stripes in both blocks: the origin and the deepest marker
    assert_eq!(pixel(&img, 3, 1), ACCENT);
    assert_eq!(pixel(&img, res + 3, 1), ACCENT);
    assert_eq!(pixel(&img, 1, 1), BACKGROUND);
}

#[test]
fn four_by_four_with_fixed_choices() {
    let pattern = [1usize, 0];
    let mut m = Maze::new(4, 4);
    let mut k = 0;
    while m.visited_count < 16 {
        let n = m.get_available_moves().len();
        if n == 0 {
            m.step(0);
        } else {
            m.step(pattern[k % 2] % n);
            k += 1;
        }
    }
    assert_eq!(m.start_position, (3, 0));
    assert_eq!(m.max_len, 14);
    assert_eq!(m.current_position, (0, 3));
    assert_eq!(
        m.moves,
        vec![(0, 0), (1, 0), (1, 1), (0, 1), (0, 2), (1, 2), (0, 3)]
    );
    assert_eq!(count_passages(&m), 15);
    assert_eq!(reachable_count(&m), 16);
}

#[test]
fn render_paints_walls_and_background() {
    let mut m = Maze::new(2, 2);
    m.step(0);
    m.step(0);
    m.step(0);
    assert_eq!(m.visited_count, 4);
    let img = m.render(3);
    assert_eq!(img.size(), (6, 6));
    // cell (0,0): right and down open
    assert_eq!(pixel(&img, 0, 1), WALL);
    assert_eq!(pixel(&img, 1, 0), WALL);
    assert_eq!(pixel(&img, 2, 1), BACKGROUND);
    assert_eq!(pixel(&img, 1, 2), WALL);
    // resolution 3 leaves one interior pixel at offset (1,1): 1+1+1 is not a multiple of 4
    assert_eq!(pixel(&img, 1, 1), BACKGROUND);
    assert_eq!(m.get_cell(1, 0).up, BorderType::Wall);
}

#[test]
fn render_twice_gives_same_pixels() {
    let mut m = Maze::new(5, 3);
    m.generate_maze_with(&mut StdRng::seed_from_u64(3));
    let before = m.cells.clone();
    let a = m.render(6);
    let b = m.render(6);
    assert_eq!(m.cells, before);
    for y in 0..18 {
        for x in 0..30 {
            assert_eq!(a.get(x, y), b.get(x, y));
            assert_eq!(a.get(x, y), Some(m.pixel_color(6, x, y)));
        }
    }
}

#[test]
fn two_by_one_rows_at_resolution_four() {
    let mut m = Maze::new(2, 1);
    m.generate_maze();
    let img = m.render(4);
    assert_eq!(img.size(), (8, 4));
    let w = WALL;
    let b = BACKGROUND;
    let a = ACCENT;
    let rows = [
        [w, w, w, w, w, w, w, w],
        [w, b, a, b, b, b, a, w],
        [w, a, a, b, b, a, a, w],
        [w, w, w, w, w, w, w, w],
    ];
    for (y, row) in rows.iter().enumerate() {
        for (x, expected) in row.iter().enumerate() {
            assert_eq!(pixel(&img, x as u32, y as u32), *expected, "pixel ({}, {})", x, y);
        }
    }
}

#[test]
fn finished_maze_is_left_unchanged() {
    let mut m = Maze::new(3, 2);
    m.generate_maze_with(&mut StdRng::seed_from_u64(11));
    let cells = m.cells.clone();
    let moves = m.moves.clone();
    let (cur, start, max) = (m.current_position, m.start_position, m.max_len);
    assert_eq!(m.moves.last(), Some(&m.current_position));
    m.generate_maze();
    assert_eq!(m.cells, cells);
    assert_eq!(m.moves, moves);
    assert_eq!((m.current_position, m.start_position, m.max_len), (cur, start, max));
}
