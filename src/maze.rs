use crate::rng::{entropy_rng, random_below};
use rand::rngs::StdRng;
use vstd::prelude::*;
use vstd::set_lib::{lemma_int_range, lemma_len_subset, lemma_subset_equality, set_int_range};

verus! {

/// State of one side of a cell.
#[derive(Clone, Copy, PartialEq, Eq, Structural, Debug)]
pub enum BorderType {
    Passage,
    Wall,
}

/// A step of the generator's cursor, and a side of a cell.
#[derive(Clone, Copy, PartialEq, Eq, Structural, Debug)]
pub enum MoveDirection {
    Left,
    Up,
    Right,
    Down,
}

/// One grid square: its four borders, whether the generator reached it, and
/// its (row, column) address.
#[derive(Clone, Copy, PartialEq, Eq, Structural, Debug)]
pub struct Cell {
    pub left: BorderType,
    pub up: BorderType,
    pub right: BorderType,
    pub down: BorderType,
    pub visited: bool,
    pub row_index: u32,
    pub col_index: u32,
}

/// A rectangular grid of cells together with the generator's state.
pub struct Maze {
    pub width: u32,
    pub height: u32,
    pub cells: Vec<Vec<Cell>>,
    pub current_position: (u32, u32),
    pub moves: Vec<(u32, u32)>,
    pub visited_count: u32,
    pub start_position: (u32, u32),
    pub total_cell_count: u32,
    pub max_len: u32,
}

/// The side of the neighbouring cell that faces `d`.
pub open spec fn opposite(d: MoveDirection) -> MoveDirection {
    match d {
        MoveDirection::Left => MoveDirection::Right,
        MoveDirection::Up => MoveDirection::Down,
        MoveDirection::Right => MoveDirection::Left,
        MoveDirection::Down => MoveDirection::Up,
    }
}

/// `c` with its border on side `d` opened.
pub open spec fn opened(c: Cell, d: MoveDirection) -> Cell {
    match d {
        MoveDirection::Left => Cell { left: BorderType::Passage, ..c },
        MoveDirection::Up => Cell { up: BorderType::Passage, ..c },
        MoveDirection::Right => Cell { right: BorderType::Passage, ..c },
        MoveDirection::Down => Cell { down: BorderType::Passage, ..c },
    }
}

/// The position one step from `p` in direction `d`.
pub open spec fn step_from(p: (u32, u32), d: MoveDirection) -> (int, int) {
    match d {
        MoveDirection::Left => (p.0 as int, p.1 - 1),
        MoveDirection::Up => (p.0 - 1, p.1 as int),
        MoveDirection::Right => (p.0 as int, p.1 + 1),
        MoveDirection::Down => (p.0 + 1, p.1 as int),
    }
}

/// The border crossed by a step from `p` in direction `d`, named as in `Maze::passages`.
pub open spec fn edge_of(p: (u32, u32), d: MoveDirection) -> (int, int, bool) {
    match d {
        MoveDirection::Left => (p.0 as int, p.1 - 1, true),
        MoveDirection::Up => (p.0 - 1, p.1 as int, false),
        MoveDirection::Right => (p.0 as int, p.1 as int, true),
        MoveDirection::Down => (p.0 as int, p.1 as int, false),
    }
}

/// A fresh cell: all four sides walled, not yet visited.
pub open spec fn fresh_cell(r: int, c: int) -> Cell {
    Cell {
        left: BorderType::Wall,
        up: BorderType::Wall,
        right: BorderType::Wall,
        down: BorderType::Wall,
        visited: false,
        row_index: r as u32,
        col_index: c as u32,
    }
}

/// Row `r`, column `c` of `g` replaced by `x`.
pub open spec fn grid_set(g: Seq<Seq<Cell>>, r: int, c: int, x: Cell) -> Seq<Seq<Cell>> {
    g.update(r, g[r].update(c, x))
}

/// The addresses of a `w` by `h` grid.
pub open spec fn all_cells(w: int, h: int) -> Set<(int, int)> {
    Set::new(|p: (int, int)| 0 <= p.0 < h && 0 <= p.1 < w)
}

proof fn lemma_row_len(r: int, w: int)
    requires
        w >= 0,
    ensures
        Set::new(|p: (int, int)| p.0 == r && 0 <= p.1 < w).finite(),
        Set::new(|p: (int, int)| p.0 == r && 0 <= p.1 < w).len() == w,
    decreases w,
{
    let s = Set::new(|p: (int, int)| p.0 == r && 0 <= p.1 < w);
    if w == 0 {
        assert(s =~= Set::empty());
    } else {
        lemma_row_len(r, w - 1);
        let t = Set::new(|p: (int, int)| p.0 == r && 0 <= p.1 < w - 1);
        assert(s =~= t.insert((r, w - 1)));
    }
}

proof fn lemma_all_cells_len(w: int, h: int)
    requires
        w >= 0,
        h >= 0,
    ensures
        all_cells(w, h).finite(),
        all_cells(w, h).len() == w * h,
    decreases h,
{
    if h == 0 {
        assert(all_cells(w, h) =~= Set::empty());
    } else {
        lemma_all_cells_len(w, h - 1);
        lemma_row_len(h - 1, w);
        let row = Set::new(|p: (int, int)| p.0 == h - 1 && 0 <= p.1 < w);
        assert(all_cells(w, h) =~= all_cells(w, h - 1) + row);
        assert(all_cells(w, h - 1).disjoint(row));
        vstd::set_lib::lemma_set_disjoint_lens(all_cells(w, h - 1), row);
        assert(w * h == w * (h - 1) + w) by (nonlinear_arith);
    }
}

/// What `Maze::new` leaves in the cell at (`r`, `c`).
pub open spec fn initial_cell(r: int, c: int) -> Cell {
    if r == 0 && c == 0 {
        Cell { visited: true, ..fresh_cell(r, c) }
    } else {
        fresh_cell(r, c)
    }
}

proof fn lemma_fresh_grid(m: &Maze)
    requires
        m.width >= 1,
        m.height >= 1,
        m.total() == m.width * m.height,
        m.grid().len() == m.height,
        forall|r: int| 0 <= r < m.height ==> #[trigger] m.grid()[r].len() == m.width,
        forall|r: int, c: int| m.in_bounds(r, c) ==> #[trigger] m.cell(r, c) == initial_cell(r, c),
        m.visited_count == 1,
        m.current_position == (0u32, 0u32),
        m.start_position == (0u32, 0u32),
        m.moves@ == seq![(0u32, 0u32)],
        m.max_len == 1,
    ensures
        m.wf(),
{
    assert(m.shaped());
    assert(m.symmetric());
    assert(m.outer_walls());
    assert(m.visited_set() =~= set![(0int, 0int)]);
    assert(m.visited_set().len() == 1);
    assert(m.passages() =~= Set::empty());
    assert(m.unvisited_walled());
    assert(m.reach((0, 0), 0));
    assert(m.visited_at(m.current_position));
    assert(1 <= m.width * m.height) by (nonlinear_arith)
        requires
            m.width >= 1,
            m.height >= 1,
    ;
    assert(m.visited_at(m.moves@[0]));
}

proof fn lemma_visited_within(m: &Maze)
    requires
        m.width >= 1,
        m.height >= 1,
    ensures
        m.visited_set().subset_of(all_cells(m.width as int, m.height as int)),
        m.visited_set().finite(),
        all_cells(m.width as int, m.height as int).finite(),
        all_cells(m.width as int, m.height as int).len() == m.width * m.height,
{
    lemma_all_cells_len(m.width as int, m.height as int);
    lemma_len_subset(m.visited_set(), all_cells(m.width as int, m.height as int));
}

/// While some cell is unvisited, the count of visited cells is below the total.
proof fn lemma_room(m: &Maze, r: int, c: int)
    requires
        m.wf(),
        m.in_bounds(r, c),
        !m.cell(r, c).visited,
    ensures
        m.visited_count < m.total(),
{
    lemma_visited_within(m);
    let all = all_cells(m.width as int, m.height as int);
    assert(m.visited_set().subset_of(all.remove((r, c))));
    lemma_len_subset(m.visited_set(), all.remove((r, c)));
}

/// Once the count reaches the total, every cell is visited.
proof fn lemma_full(m: &Maze)
    requires
        m.wf(),
        m.visited_count == m.total(),
    ensures
        m.all_visited(),
{
    lemma_visited_within(m);
    let all = all_cells(m.width as int, m.height as int);
    lemma_subset_equality(m.visited_set(), all);
    assert forall|r: int, c: int| m.in_bounds(r, c) implies (#[trigger] m.cell(r, c)).visited by {
        assert(all.contains((r, c)));
    }
}

/// Where no visited cell borders an unvisited one, cell (`r`, `c`) is visited:
/// the grid is connected and the origin is visited.
proof fn lemma_closed_reaches(m: &Maze, r: int, c: int)
    requires
        m.cell(0, 0).visited,
        forall|a: int, b: int|
            m.in_bounds(a, b) && (#[trigger] m.cell(a, b)).visited ==> !m.has_unvisited_neighbor(a, b),
        m.in_bounds(r, c),
    ensures
        m.cell(r, c).visited,
    decreases r, c,
{
    if c > 0 {
        lemma_closed_reaches(m, r, c - 1);
        assert(m.cell(r, c - 1).visited);
        assert(!m.has_unvisited_neighbor(r, c - 1));
    } else if r > 0 {
        lemma_closed_reaches(m, r - 1, c);
        assert(m.cell(r - 1, c).visited);
        assert(!m.has_unvisited_neighbor(r - 1, c));
    }
}

/// Where no visited cell borders an unvisited one, every cell is visited.
proof fn lemma_closed_full(m: &Maze)
    requires
        m.wf(),
        forall|a: int, b: int|
            m.in_bounds(a, b) && (#[trigger] m.cell(a, b)).visited ==> !m.has_unvisited_neighbor(a, b),
    ensures
        m.visited_count == m.total(),
{
    lemma_visited_within(m);
    let all = all_cells(m.width as int, m.height as int);
    assert forall|p: (int, int)| all.contains(p) implies m.visited_set().contains(p) by {
        lemma_closed_reaches(m, p.0, p.1);
    }
    assert(m.visited_set() =~= all);
}

proof fn lemma_available(m: &Maze)
    requires
        m.wf(),
    ensures
        m.available_moves().len() > 0 <==> m.has_unvisited_neighbor(
            m.current_position.0 as int,
            m.current_position.1 as int,
        ),
        forall|i: int| 0 <= i < m.available_moves().len() ==> m.can_move(#[trigger] m.available_moves()[i]),
{
    let a = m.available_moves();
    assert forall|i: int| 0 <= i < a.len() implies m.can_move(#[trigger] a[i]) by {
        let l = if m.can_move(MoveDirection::Left) { seq![MoveDirection::Left] } else { seq![] };
        let rr = if m.can_move(MoveDirection::Right) { seq![MoveDirection::Right] } else { seq![] };
        let u = if m.can_move(MoveDirection::Up) { seq![MoveDirection::Up] } else { seq![] };
        let dd = if m.can_move(MoveDirection::Down) { seq![MoveDirection::Down] } else { seq![] };
        assert(a == l + rr + u + dd);
        if i < l.len() {
            assert(a[i] == l[i]);
        } else if i < l.len() + rr.len() {
            assert(a[i] == rr[i - l.len()]);
        } else if i < l.len() + rr.len() + u.len() {
            assert(a[i] == u[i - l.len() - rr.len()]);
        } else {
            assert(a[i] == dd[i - l.len() - rr.len() - u.len()]);
        }
    }
}

proof fn lemma_set_keeps_shape(o: Maze, m: Maze, r0: int, c0: int, x: Cell)
    requires
        o.shaped(),
        o.in_bounds(r0, c0),
        x.row_index == r0,
        x.col_index == c0,
        m.width == o.width,
        m.height == o.height,
        m.grid() == grid_set(o.grid(), r0, c0, x),
    ensures
        m.shaped(),
        forall|r: int, c: int|
            m.in_bounds(r, c) ==> #[trigger] m.cell(r, c) == if r == r0 && c == c0 {
                x
            } else {
                o.cell(r, c)
            },
{
    assert forall|r: int| 0 <= r < m.height implies #[trigger] m.grid()[r].len() == m.width by {
        assert(o.grid()[r].len() == o.width);
    }
    assert forall|r: int, c: int| m.in_bounds(r, c) implies (#[trigger] m.cell(r, c)).row_index == r
        && m.cell(r, c).col_index == c by {
        assert(o.cell(r, c).row_index == r);
    }
}

/// What one forward move does to each cell.
pub open spec fn advanced_cell(o: Maze, d: MoveDirection, r: int, c: int) -> Cell {
    let n = step_from(o.current_position, d);
    if r == n.0 && c == n.1 {
        Cell { visited: true, ..opened(o.cell(r, c), opposite(d)) }
    } else if r == o.current_position.0 && c == o.current_position.1 {
        opened(o.cell(r, c), d)
    } else {
        o.cell(r, c)
    }
}

proof fn lemma_advance_cells(o: Maze, m: Maze, d: MoveDirection)
    requires
        o.shaped(),
        o.in_bounds(o.current_position.0 as int, o.current_position.1 as int),
        o.can_move(d),
        m.advanced(o, d),
    ensures
        m.shaped(),
        forall|r: int, c: int| m.in_bounds(r, c) ==> #[trigger] m.cell(r, c) == advanced_cell(o, d, r, c),
{
    assert forall|r: int| 0 <= r < m.height implies #[trigger] m.grid()[r].len() == m.width by {}
    assert forall|r: int, c: int| m.in_bounds(r, c) implies #[trigger] m.cell(r, c) == advanced_cell(
        o,
        d,
        r,
        c,
    ) by {}
    assert forall|r: int, c: int| m.in_bounds(r, c) implies (#[trigger] m.cell(r, c)).row_index == r
        && m.cell(r, c).col_index == c by {
        assert(m.cell(r, c) == advanced_cell(o, d, r, c));
        assert(o.cell(r, c).row_index == r);
    }
}

proof fn lemma_advance_symmetric(o: Maze, m: Maze, d: MoveDirection)
    requires
        o.symmetric(),
        o.outer_walls(),
        o.in_bounds(o.current_position.0 as int, o.current_position.1 as int),
        o.can_move(d),
        m.width == o.width,
        m.height == o.height,
        forall|r: int, c: int| m.in_bounds(r, c) ==> #[trigger] m.cell(r, c) == advanced_cell(o, d, r, c),
    ensures
        m.symmetric(),
        m.outer_walls(),
{
    assert forall|r: int, c: int| m.in_bounds(r, c) && c + 1 < m.width implies #[trigger] m.cell(r, c).right
        == m.cell(r, c + 1).left by {
        assert(m.cell(r, c + 1) == advanced_cell(o, d, r, c + 1));
        assert(o.cell(r, c).right == o.cell(r, c + 1).left);
    }
    assert forall|r: int, c: int| m.in_bounds(r, c) && r + 1 < m.height implies #[trigger] m.cell(r, c).down
        == m.cell(r + 1, c).up by {
        assert(m.cell(r + 1, c) == advanced_cell(o, d, r + 1, c));
        assert(o.cell(r, c).down == o.cell(r + 1, c).up);
    }
}

proof fn lemma_advance_passages(o: Maze, m: Maze, d: MoveDirection)
    requires
        o.wf(),
        o.can_move(d),
        m.width == o.width,
        m.height == o.height,
        forall|r: int, c: int| m.in_bounds(r, c) ==> #[trigger] m.cell(r, c) == advanced_cell(o, d, r, c),
    ensures
        m.passages() == o.passages().insert(edge_of(o.current_position, d)),
        !o.passages().contains(edge_of(o.current_position, d)),
        m.unvisited_walled(),
{
    let p = o.current_position;
    let n = step_from(p, d);
    let e = edge_of(p, d);
    assert(!o.cell(n.0, n.1).visited);
    match d {
        MoveDirection::Left => {
            assert(o.cell(n.0, n.1).right == o.cell(n.0, n.1 + 1).left);
        },
        MoveDirection::Up => {
            assert(o.cell(n.0, n.1).down == o.cell(n.0 + 1, n.1).up);
        },
        MoveDirection::Right => {
            assert(o.cell(p.0 as int, p.1 as int).right == o.cell(p.0 as int, p.1 + 1).left);
        },
        MoveDirection::Down => {
            assert(o.cell(p.0 as int, p.1 as int).down == o.cell(p.0 + 1, p.1 as int).up);
        },
    }
    assert forall|t: (int, int, bool)| #[trigger] m.passages().contains(t) == o.passages().insert(e).contains(t) by {
        if m.in_bounds(t.0, t.1) {
            assert(m.cell(t.0, t.1) == advanced_cell(o, d, t.0, t.1));
        }
    }
    assert(m.passages() =~= o.passages().insert(e));
    assert forall|r: int, c: int| m.in_bounds(r, c) && !#[trigger] m.cell(r, c).visited implies {
        &&& m.cell(r, c).left == BorderType::Wall
        &&& m.cell(r, c).up == BorderType::Wall
        &&& m.cell(r, c).right == BorderType::Wall
        &&& m.cell(r, c).down == BorderType::Wall
    } by {
        assert(m.cell(r, c) == advanced_cell(o, d, r, c));
        assert(!o.cell(r, c).visited);
    }
}

proof fn lemma_advance_connected(o: Maze, m: Maze, d: MoveDirection)
    requires
        o.wf(),
        o.can_move(d),
        m.width == o.width,
        m.height == o.height,
        forall|r: int, c: int| m.in_bounds(r, c) ==> #[trigger] m.cell(r, c) == advanced_cell(o, d, r, c),
        m.passages() == o.passages().insert(edge_of(o.current_position, d)),
    ensures
        m.connected(),
{
    let p = o.current_position;
    let pc = (p.0 as int, p.1 as int);
    let n = step_from(p, d);
    assert(o.cell(pc.0, pc.1).visited);
    let k = choose|k: nat| o.reach(pc, k);
    lemma_reach_grows(o, m, pc, k);
    assert(m.linked(pc, n));
    assert(m.reach(n, k + 1));
    assert forall|r: int, c: int| m.in_bounds(r, c) && #[trigger] m.cell(r, c).visited implies exists|j: nat|
        m.reach((r, c), j) by {
        assert(m.cell(r, c) == advanced_cell(o, d, r, c));
        if r == n.0 && c == n.1 {
            assert(m.reach((r, c), k + 1));
        } else {
            assert(o.cell(r, c).visited);
            let j = choose|j: nat| o.reach((r, c), j);
            lemma_reach_grows(o, m, (r, c), j);
        }
    }
}

proof fn lemma_advance_wf(o: Maze, m: Maze, d: MoveDirection)
    requires
        o.wf(),
        o.can_move(d),
        m.advanced(o, d),
    ensures
        m.wf(),
{
    let n = step_from(o.current_position, d);
    lemma_advance_cells(o, m, d);
    lemma_advance_symmetric(o, m, d);
    lemma_advance_passages(o, m, d);
    lemma_advance_connected(o, m, d);
    assert(m.visited_set() =~= o.visited_set().insert(n));
    lemma_visited_within(&o);
    lemma_room(&o, n.0, n.1);
    assert forall|i: int| 0 <= i < m.moves@.len() implies m.visited_at(#[trigger] m.moves@[i]) by {
        if i < o.moves@.len() {
            assert(m.moves@[i] == o.moves@[i]);
            assert(o.visited_at(o.moves@[i]));
        }
    }
    assert(o.visited_at(o.start_position));
}

proof fn lemma_reach_grows(o: Maze, m: Maze, q: (int, int), k: nat)
    requires
        o.passages().subset_of(m.passages()),
        o.reach(q, k),
    ensures
        m.reach(q, k),
    decreases k,
{
    if k > 0 {
        if o.reach(q, (k - 1) as nat) {
            lemma_reach_grows(o, m, q, (k - 1) as nat);
        } else {
            let p = choose|p: (int, int)| o.linked(p, q) && o.reach(p, (k - 1) as nat);
            lemma_reach_grows(o, m, p, (k - 1) as nat);
            assert(m.linked(p, q));
        }
    }
}

proof fn lemma_connected_grows(o: Maze, m: Maze)
    requires
        o.connected(),
        o.passages().subset_of(m.passages()),
        m.width == o.width,
        m.height == o.height,
        forall|r: int, c: int| m.in_bounds(r, c) && #[trigger] m.cell(r, c).visited ==> o.cell(r, c).visited,
    ensures
        m.connected(),
{
    assert forall|r: int, c: int| m.in_bounds(r, c) && #[trigger] m.cell(r, c).visited implies exists|k: nat|
        m.reach((r, c), k) by {
        assert(o.cell(r, c).visited);
        let k = choose|k: nat| o.reach((r, c), k);
        lemma_reach_grows(o, m, (r, c), k);
    }
}

proof fn lemma_same_grid(o: &Maze, m: &Maze)
    requires
        o.shaped(),
        o.symmetric(),
        o.outer_walls(),
        m.grid() == o.grid(),
        m.width == o.width,
        m.height == o.height,
    ensures
        m.shaped(),
        m.symmetric(),
        m.outer_walls(),
        m.visited_set() == o.visited_set(),
        m.passages() == o.passages(),
        o.unvisited_walled() ==> m.unvisited_walled(),
        o.connected() ==> m.connected(),
{
    assert forall|r: int, c: int| #![trigger m.cell(r, c)] m.in_bounds(r, c) implies m.cell(r, c) == o.cell(r, c)
        && o.cell(r, c).row_index == r && o.cell(r, c).col_index == c by {}
    assert forall|r: int, c: int| m.in_bounds(r, c) && c + 1 < m.width implies #[trigger] m.cell(r, c).right
        == m.cell(r, c + 1).left by {
        assert(o.cell(r, c).right == o.cell(r, c + 1).left);
    }
    assert forall|r: int, c: int| m.in_bounds(r, c) && r + 1 < m.height implies #[trigger] m.cell(r, c).down
        == m.cell(r + 1, c).up by {
        assert(o.cell(r, c).down == o.cell(r + 1, c).up);
    }
    assert(m.visited_set() =~= o.visited_set());
    assert(m.passages() =~= o.passages());
    if o.connected() {
        lemma_connected_grows(*o, *m);
    }
}

/// After generation every cell is visited and can be reached from the origin
/// through open borders, and exactly `width * height - 1` borders are open: a
/// connected graph on all cells with one edge fewer than it has cells, that is
/// a spanning tree of the grid.
pub proof fn generated_maze_is_spanning_tree(m: Maze)
    requires
        m.wf(),
        m.finished(),
    ensures
        m.visited_count == m.width * m.height,
        m.all_visited(),
        forall|r: int, c: int| m.in_bounds(r, c) ==> exists|k: nat| #[trigger] m.reach((r, c), k),
        m.passages().finite(),
        m.passages().len() + 1 == m.width * m.height,
{
    lemma_full(&m);
    assert forall|r: int, c: int| m.in_bounds(r, c) implies exists|k: nat| #[trigger] m.reach((r, c), k) by {
        assert(m.cell(r, c).visited);
    }
}

/// A forward move in a direction open to the cursor keeps the invariant: the
/// two sides of the opened border agree, as do all other shared borders; the
/// move stack stays within `width * height` entries; the deepest marker stays a
/// visited cell of the grid.
pub proof fn advance_keeps_invariant(o: Maze, m: Maze, d: MoveDirection)
    requires
        o.wf(),
        o.can_move(d),
        m.advanced(o, d),
    ensures
        m.wf(),
        m.symmetric(),
        m.moves@.len() <= m.width * m.height,
        m.visited_at(m.start_position),
{
    lemma_advance_wf(o, m, d);
}

/// In every well-formed state, and so after construction, after each step and
/// after generation, neighbouring cells agree on the border they share.
pub proof fn borders_agree(m: Maze, r: int, c: int)
    requires
        m.wf(),
        m.in_bounds(r, c),
    ensures
        c + 1 < m.width ==> m.cell(r, c).right == m.cell(r, c + 1).left,
        r + 1 < m.height ==> m.cell(r, c).down == m.cell(r + 1, c).up,
{
    if c + 1 < m.width {
        assert(m.cell(r, c).right == m.cell(r, c + 1).left);
    }
    if r + 1 < m.height {
        assert(m.cell(r, c).down == m.cell(r + 1, c).up);
    }
}

/// In every well-formed state the move stack holds at most `width * height`
/// positions, each of them a visited cell of the grid.
pub proof fn move_stack_bounded(m: Maze)
    requires
        m.wf(),
    ensures
        m.moves@.len() <= m.width * m.height,
        forall|i: int| 0 <= i < m.moves@.len() ==> m.visited_at(#[trigger] m.moves@[i]),
{
}

/// In every well-formed state the deepest marker is a visited cell of the grid.
pub proof fn deepest_marker_visited(m: Maze)
    requires
        m.wf(),
    ensures
        m.in_bounds(m.start_position.0 as int, m.start_position.1 as int),
        m.cell(m.start_position.0 as int, m.start_position.1 as int).visited,
{
}

/// The deepest length never shrinks: a step keeps it or raises it by one,
/// raising it exactly when the stack outgrows it, and the marker moves only then.
pub proof fn deepest_len_monotone(o: Maze, m: Maze, d: MoveDirection)
    requires
        o.wf(),
        m.advanced(o, d) || m.backtracked(o),
    ensures
        m.deepest_len() == o.deepest_len() || m.deepest_len() == o.deepest_len() + 1,
        m.deepest_len() == o.deepest_len() + 1 <==> m.moves@.len() > o.deepest_len(),
        m.start_position != o.start_position ==> m.deepest_len() == o.deepest_len() + 1,
{
}

impl Cell {
    /// A cell at (`row_index`, `col_index`) with all four sides walled, not yet visited.
    pub fn new(row_index: u32, col_index: u32) -> (r: Cell)
        ensures
            r == fresh_cell(row_index as int, col_index as int),
    {
        Cell {
            row_index: row_index,
            col_index: col_index,
            visited: false,
            up: BorderType::Wall,
            left: BorderType::Wall,
            down: BorderType::Wall,
            right: BorderType::Wall,
        }
    }
}

impl Maze {
    /// The grid as rows of cells.
    pub open spec fn grid(&self) -> Seq<Seq<Cell>> {
        self.cells@.map_values(|row: Vec<Cell>| row@)
    }

    pub open spec fn in_bounds(&self, r: int, c: int) -> bool {
        0 <= r < self.height && 0 <= c < self.width
    }

    pub open spec fn cell(&self, r: int, c: int) -> Cell {
        self.grid()[r][c]
    }

    /// The grid has `height` rows of `width` cells, each holding its own address.
    pub open spec fn shaped(&self) -> bool {
        &&& self.grid().len() == self.height
        &&& forall|r: int| 0 <= r < self.height ==> #[trigger] self.grid()[r].len() == self.width
        &&& forall|r: int, c: int|
            self.in_bounds(r, c) ==> (#[trigger] self.cell(r, c)).row_index == r
                && self.cell(r, c).col_index == c
    }

    /// Each border shared by two neighbouring cells has the same state on both sides.
    pub open spec fn symmetric(&self) -> bool {
        &&& forall|r: int, c: int|
            self.in_bounds(r, c) && c + 1 < self.width ==> #[trigger] self.cell(r, c).right
                == self.cell(r, c + 1).left
        &&& forall|r: int, c: int|
            self.in_bounds(r, c) && r + 1 < self.height ==> #[trigger] self.cell(r, c).down
                == self.cell(r + 1, c).up
    }

    /// Every border on the outside of the grid is a wall.
    pub open spec fn outer_walls(&self) -> bool {
        &&& forall|r: int| 0 <= r < self.height ==> (#[trigger] self.cell(r, 0)).left == BorderType::Wall
        &&& forall|r: int|
            0 <= r < self.height ==> (#[trigger] self.cell(r, self.width - 1)).right == BorderType::Wall
        &&& forall|c: int| 0 <= c < self.width ==> (#[trigger] self.cell(0, c)).up == BorderType::Wall
        &&& forall|c: int|
            0 <= c < self.width ==> (#[trigger] self.cell(self.height - 1, c)).down == BorderType::Wall
    }

    pub open spec fn visited_at(&self, p: (u32, u32)) -> bool {
        self.in_bounds(p.0 as int, p.1 as int) && self.cell(p.0 as int, p.1 as int).visited
    }

    /// The addresses of the visited cells.
    pub open spec fn visited_set(&self) -> Set<(int, int)> {
        Set::new(|p: (int, int)| self.in_bounds(p.0, p.1) && self.cell(p.0, p.1).visited)
    }

    /// Every cell has been visited.
    pub open spec fn all_visited(&self) -> bool {
        forall|r: int, c: int| self.in_bounds(r, c) ==> (#[trigger] self.cell(r, c)).visited
    }

    /// The length of the longest stack of moves seen so far.
    pub open spec fn deepest_len(&self) -> nat {
        self.max_len as nat
    }

    /// The number of cells, as the generator counts it.
    pub open spec fn total(&self) -> nat {
        self.total_cell_count as nat
    }

    /// The neighbour of the cursor in direction `d` lies in the grid and is unvisited.
    pub open spec fn can_move(&self, d: MoveDirection) -> bool {
        let n = step_from(self.current_position, d);
        self.in_bounds(n.0, n.1) && !self.cell(n.0, n.1).visited
    }

    /// The directions open to the cursor, in the order Left, Right, Up, Down.
    pub open spec fn available_moves(&self) -> Seq<MoveDirection> {
        (if self.can_move(MoveDirection::Left) { seq![MoveDirection::Left] } else { seq![] })
            + (if self.can_move(MoveDirection::Right) { seq![MoveDirection::Right] } else { seq![] })
            + (if self.can_move(MoveDirection::Up) { seq![MoveDirection::Up] } else { seq![] })
            + (if self.can_move(MoveDirection::Down) { seq![MoveDirection::Down] } else { seq![] })
    }

    /// The cell at (`r`, `c`) has a neighbour in the grid that is not yet visited.
    pub open spec fn has_unvisited_neighbor(&self, r: int, c: int) -> bool {
        ||| (c > 0 && !self.cell(r, c - 1).visited)
        ||| (c + 1 < self.width && !self.cell(r, c + 1).visited)
        ||| (r > 0 && !self.cell(r - 1, c).visited)
        ||| (r + 1 < self.height && !self.cell(r + 1, c).visited)
    }

    /// Everything but the grid is as in `o`.
    pub open spec fn same_but_grid(&self, o: Maze) -> bool {
        &&& self.width == o.width
        &&& self.height == o.height
        &&& self.current_position == o.current_position
        &&& self.moves@ == o.moves@
        &&& self.visited_count == o.visited_count
        &&& self.start_position == o.start_position
        &&& self.total_cell_count == o.total_cell_count
        &&& self.max_len == o.max_len
    }

    /// The state after one forward move of `o` in direction `d`: the border
    /// between the cursor and its neighbour is opened on both sides, the
    /// neighbour is visited, counted, pushed and becomes the cursor; when the
    /// stack grows past its deepest length so far, the neighbour becomes the
    /// deepest marker and that length grows by one.
    pub open spec fn advanced(&self, o: Maze, d: MoveDirection) -> bool {
        let cur = o.current_position;
        let n = step_from(cur, d);
        let np = (n.0 as u32, n.1 as u32);
        &&& self.width == o.width
        &&& self.height == o.height
        &&& self.total_cell_count == o.total_cell_count
        &&& self.grid() == grid_set(
            grid_set(o.grid(), cur.0 as int, cur.1 as int, opened(o.cell(cur.0 as int, cur.1 as int), d)),
            n.0,
            n.1,
            Cell { visited: true, ..opened(o.cell(n.0, n.1), opposite(d)) },
        )
        &&& self.visited_count == o.visited_count + 1
        &&& self.moves@ == o.moves@.push(np)
        &&& self.current_position == np
        &&& if o.moves@.len() + 1 > o.max_len {
            self.start_position == np && self.max_len == o.max_len + 1
        } else {
            self.start_position == o.start_position && self.max_len == o.max_len
        }
    }

    /// The state after one backtracking step of `o`: the top of the move stack
    /// is popped and becomes the cursor. Should the stack have run dry, the
    /// cursor resumes at a visited cell that still has an unvisited neighbour.
    pub open spec fn backtracked(&self, o: Maze) -> bool {
        &&& self.width == o.width
        &&& self.height == o.height
        &&& self.total_cell_count == o.total_cell_count
        &&& self.grid() == o.grid()
        &&& self.visited_count == o.visited_count
        &&& self.start_position == o.start_position
        &&& self.max_len == o.max_len
        &&& if o.moves@.len() > 0 {
            &&& self.moves@ == o.moves@.drop_last()
            &&& self.current_position == o.moves@.last()
        } else {
            &&& self.moves@ == o.moves@
            &&& self.visited_at(self.current_position)
            &&& self.has_unvisited_neighbor(self.current_position.0 as int, self.current_position.1 as int)
        }
    }

    /// `self` follows from `o` by one round of generation: a forward move in
    /// one of the available directions or, with none available, a
    /// backtracking step.
    pub open spec fn stepped(&self, o: Maze) -> bool {
        if o.available_moves().len() > 0 {
            exists|i: int|
                0 <= i < o.available_moves().len() && #[trigger] self.advanced(o, o.available_moves()[i])
        } else {
            self.backtracked(o)
        }
    }

    /// `trace` is a run of generation from `o` to `self`: every state but the
    /// last is unfinished, and each next state follows from it by one round.
    pub open spec fn generated_along(&self, o: Maze, trace: Seq<Maze>) -> bool {
        &&& trace.len() >= 1
        &&& trace[0] == o
        &&& trace.last() == *self
        &&& forall|i: int|
            0 <= i < trace.len() - 1 ==> !(#[trigger] trace[i]).finished() && trace[i + 1].stepped(trace[i])
    }

    /// Generation is over: every cell has been counted.
    pub open spec fn finished(&self) -> bool {
        self.visited_count == self.total_cell_count
    }

    /// The open borders between neighbouring cells: `(r, c, true)` for the one
    /// between (r, c) and (r, c + 1), `(r, c, false)` for the one between
    /// (r, c) and (r + 1, c).
    pub open spec fn passages(&self) -> Set<(int, int, bool)> {
        Set::new(
            |e: (int, int, bool)|
                self.in_bounds(e.0, e.1) && if e.2 {
                    e.1 + 1 < self.width && self.cell(e.0, e.1).right == BorderType::Passage
                } else {
                    e.0 + 1 < self.height && self.cell(e.0, e.1).down == BorderType::Passage
                },
        )
    }

    /// Cells `p` and `q` are neighbours with an open border between them.
    pub open spec fn linked(&self, p: (int, int), q: (int, int)) -> bool {
        ||| (p.0 == q.0 && p.1 + 1 == q.1 && self.passages().contains((p.0, p.1, true)))
        ||| (p.0 == q.0 && q.1 + 1 == p.1 && self.passages().contains((q.0, q.1, true)))
        ||| (p.1 == q.1 && p.0 + 1 == q.0 && self.passages().contains((p.0, p.1, false)))
        ||| (p.1 == q.1 && q.0 + 1 == p.0 && self.passages().contains((q.0, q.1, false)))
    }

    /// Cell `q` can be reached from the origin by crossing at most `k` open borders.
    pub open spec fn reach(&self, q: (int, int), k: nat) -> bool
        decreases k,
    {
        if k == 0 {
            q == (0int, 0int)
        } else {
            self.reach(q, (k - 1) as nat) || exists|p: (int, int)|
                #![trigger self.linked(p, q)]
                self.linked(p, q) && self.reach(p, (k - 1) as nat)
        }
    }

    /// Every visited cell can be reached from the origin through open borders.
    pub open spec fn connected(&self) -> bool {
        forall|r: int, c: int|
            self.in_bounds(r, c) && #[trigger] self.cell(r, c).visited ==> exists|k: nat| self.reach((r, c), k)
    }

    /// A cell that the generator has not reached is walled on all four sides.
    pub open spec fn unvisited_walled(&self) -> bool {
        forall|r: int, c: int|
            self.in_bounds(r, c) && !#[trigger] self.cell(r, c).visited ==> {
                &&& self.cell(r, c).left == BorderType::Wall
                &&& self.cell(r, c).up == BorderType::Wall
                &&& self.cell(r, c).right == BorderType::Wall
                &&& self.cell(r, c).down == BorderType::Wall
            }
    }

    /// The invariant that construction establishes and every step keeps.
    pub open spec fn wf(&self) -> bool {
        &&& self.width >= 1 && self.height >= 1
        &&& self.total() == self.width * self.height
        &&& self.shaped()
        &&& self.symmetric()
        &&& self.outer_walls()
        &&& self.cell(0, 0).visited
        &&& self.unvisited_walled()
        &&& self.passages().finite()
        &&& self.passages().len() + 1 == self.visited_count
        &&& self.connected()
        &&& self.visited_set().len() == self.visited_count
        &&& self.visited_count <= self.total()
        &&& self.visited_at(self.current_position)
        &&& self.moves@.len() <= self.visited_count
        &&& forall|i: int| 0 <= i < self.moves@.len() ==> self.visited_at(#[trigger] self.moves@[i])
        &&& self.visited_at(self.start_position)
        &&& self.moves@.len() <= self.deepest_len() <= self.visited_count
    }

    /// A `width` by `height` grid of walled cells in which only the origin is
    /// visited; the cursor stands at the origin, which is the only entry of
    /// the move stack.
    pub fn new(width: u32, height: u32) -> (m: Maze)
        requires
            width >= 1,
            height >= 1,
            width * height <= u32::MAX,
        ensures
            m.wf(),
            m.width == width,
            m.height == height,
            forall|r: int, c: int| m.in_bounds(r, c) ==> #[trigger] m.cell(r, c) == initial_cell(r, c),
            m.visited_count == 1,
            m.current_position == (0u32, 0u32),
            m.start_position == (0u32, 0u32),
            m.moves@ == seq![(0u32, 0u32)],
            m.deepest_len() == 1,
    {
        let mut cells: Vec<Vec<Cell>> = Vec::new();
        let mut row_index: u32 = 0;
        while row_index < height
            invariant
                row_index <= height,
                cells@.len() == row_index,
                forall|r: int| 0 <= r < row_index ==> (#[trigger] cells@[r])@.len() == width,
                forall|r: int, c: int|
                    0 <= r < row_index && 0 <= c < width ==> #[trigger] cells@[r]@[c] == fresh_cell(r, c),
            decreases height - row_index,
        {
            let mut row: Vec<Cell> = Vec::new();
            let mut col_index: u32 = 0;
            while col_index < width
                invariant
                    col_index <= width,
                    row@.len() == col_index,
                    forall|c: int| 0 <= c < col_index ==> #[trigger] row@[c] == fresh_cell(row_index as int, c),
                decreases width - col_index,
            {
                let cell = Cell::new(row_index, col_index);
                row.push(cell);
                col_index = col_index + 1;
            }
            cells.push(row);
            row_index = row_index + 1;
        }
        cells[0][0].visited = true;
        let mut moves: Vec<(u32, u32)> = Vec::new();
        moves.push((0, 0));
        let m = Maze {
            cells,
            current_position: (0, 0),
            width,
            height,
            moves,
            visited_count: 1,
            total_cell_count: width * height,
            start_position: (0, 0),
            max_len: 1,
        };
        proof {
            assert forall|r: int| 0 <= r < height implies #[trigger] m.grid()[r] == m.cells@[r]@ by {}
            lemma_fresh_grid(&m);
        }
        m
    }

    /// The directions in which the cursor can move, in the order Left, Right, Up, Down.
    pub fn get_available_moves(&self) -> (r: Vec<MoveDirection>)
        requires
            self.wf(),
        ensures
            r@ == self.available_moves(),
    {
        let mut available_moves: Vec<MoveDirection> = Vec::new();
        let row = self.current_position.0;
        let col = self.current_position.1;
        if col > 0 && !self.get_cell(row, col - 1).visited {
            available_moves.push(MoveDirection::Left);
        }
        if col < self.width - 1 && !self.get_cell(row, col + 1).visited {
            available_moves.push(MoveDirection::Right);
        }
        if row > 0 && !self.get_cell(row - 1, col).visited {
            available_moves.push(MoveDirection::Up);
        }
        if row < self.height - 1 && !self.get_cell(row + 1, col).visited {
            available_moves.push(MoveDirection::Down);
        }
        proof {
            assert(available_moves@ =~= self.available_moves());
        }
        available_moves
    }

    /// The position one step from the cursor in `direction`.
    fn get_next_index(&self, direction: &MoveDirection) -> (r: (u32, u32))
        requires
            self.shaped(),
            self.in_bounds(self.current_position.0 as int, self.current_position.1 as int),
            self.in_bounds(
                step_from(self.current_position, *direction).0,
                step_from(self.current_position, *direction).1,
            ),
        ensures
            r.0 == step_from(self.current_position, *direction).0,
            r.1 == step_from(self.current_position, *direction).1,
    {
        match direction {
            MoveDirection::Left => (self.current_position.0, self.current_position.1 - 1),
            MoveDirection::Up => (self.current_position.0 - 1, self.current_position.1),
            MoveDirection::Right => (self.current_position.0, self.current_position.1 + 1),
            MoveDirection::Down => (self.current_position.0 + 1, self.current_position.1),
        }
    }

    /// Opens side `side` of the cell at `cell_index`.
    fn set_cell_passage(&mut self, cell_index: (u32, u32), side: &MoveDirection)
        requires
            old(self).shaped(),
            old(self).in_bounds(cell_index.0 as int, cell_index.1 as int),
        ensures
            final(self).shaped(),
            final(self).same_but_grid(*old(self)),
            final(self).grid() == grid_set(
                old(self).grid(),
                cell_index.0 as int,
                cell_index.1 as int,
                opened(old(self).cell(cell_index.0 as int, cell_index.1 as int), *side),
            ),
    {
        let r = cell_index.0 as usize;
        let c = cell_index.1 as usize;
        match side {
            MoveDirection::Left => self.cells[r][c].left = BorderType::Passage,
            MoveDirection::Up => self.cells[r][c].up = BorderType::Passage,
            MoveDirection::Right => self.cells[r][c].right = BorderType::Passage,
            MoveDirection::Down => self.cells[r][c].down = BorderType::Passage,
        }
        proof {
            assert(self.grid() =~~= grid_set(
                old(self).grid(),
                r as int,
                c as int,
                opened(old(self).cell(r as int, c as int), *side),
            ));
            lemma_set_keeps_shape(
                *old(self),
                *self,
                r as int,
                c as int,
                opened(old(self).cell(r as int, c as int), *side),
            );
        }
    }

    /// Records the cursor as the deepest marker when the move stack has grown
    /// past its deepest length so far.
    fn update_start_position(&mut self)
        requires
            old(self).moves@.len() <= u32::MAX,
            old(self).max_len < u32::MAX,
        ensures
            final(self).grid() == old(self).grid(),
            final(self).width == old(self).width,
            final(self).height == old(self).height,
            final(self).current_position == old(self).current_position,
            final(self).moves@ == old(self).moves@,
            final(self).visited_count == old(self).visited_count,
            final(self).total_cell_count == old(self).total_cell_count,
            if old(self).max_len < old(self).moves@.len() {
                final(self).start_position == old(self).current_position && final(self).max_len == old(
                    self,
                ).max_len + 1
            } else {
                final(self).start_position == old(self).start_position && final(self).max_len == old(
                    self,
                ).max_len
            },
    {
        if self.max_len < self.moves.len() as u32 {
            self.start_position = (self.current_position.0, self.current_position.1);
            self.max_len = self.max_len + 1;
        }
    }

    /// Moves the cursor to its unvisited neighbour in `direction`, opening the
    /// border between the two cells on both sides.
    fn make_move(&mut self, direction: &MoveDirection)
        requires
            old(self).wf(),
            old(self).can_move(*direction),
        ensures
            final(self).wf(),
            final(self).advanced(*old(self), *direction),
    {
        let next_index = self.get_next_index(direction);
        let current = self.current_position;
        match direction {
            MoveDirection::Left => {
                self.set_cell_passage(current, &MoveDirection::Left);
                self.set_cell_passage(next_index, &MoveDirection::Right);
            },
            MoveDirection::Up => {
                self.set_cell_passage(current, &MoveDirection::Up);
                self.set_cell_passage(next_index, &MoveDirection::Down);
            },
            MoveDirection::Right => {
                self.set_cell_passage(current, &MoveDirection::Right);
                self.set_cell_passage(next_index, &MoveDirection::Left);
            },
            MoveDirection::Down => {
                self.set_cell_passage(current, &MoveDirection::Down);
                self.set_cell_passage(next_index, &MoveDirection::Up);
            },
        }
        proof {
            assert(self.grid()[next_index.0 as int] == self.cells@[next_index.0 as int]@);
        }
        let ghost opened_grid = self.grid();
        let ghost before = *self;
        self.cells[next_index.0 as usize][next_index.1 as usize].visited = true;
        proof {
            let (nr, nc) = (next_index.0 as int, next_index.1 as int);
            assert(self.grid() =~~= grid_set(opened_grid, nr, nc, Cell { visited: true, ..before.cell(nr, nc) }));
            lemma_room(old(self), next_index.0 as int, next_index.1 as int);
        }
        self.visited_count = self.visited_count + 1;
        self.moves.push(next_index);
        self.current_position = next_index;
        self.update_start_position();
        proof {
            let n = step_from(old(self).current_position, *direction);
            assert(self.grid() =~~= grid_set(
                grid_set(
                    old(self).grid(),
                    current.0 as int,
                    current.1 as int,
                    opened(old(self).cell(current.0 as int, current.1 as int), *direction),
                ),
                n.0,
                n.1,
                Cell { visited: true, ..opened(old(self).cell(n.0, n.1), opposite(*direction)) },
            ));
            lemma_advance_wf(*old(self), *self, *direction);
        }
    }

    /// Whether the cell at (`row_index`, `col_index`) is visited and borders an unvisited cell.
    fn is_frontier(&self, row_index: u32, col_index: u32) -> (b: bool)
        requires
            self.shaped(),
            self.in_bounds(row_index as int, col_index as int),
        ensures
            b == (self.cell(row_index as int, col_index as int).visited && self.has_unvisited_neighbor(
                row_index as int,
                col_index as int,
            )),
    {
        let r = row_index;
        let c = col_index;
        if !self.get_cell(r, c).visited {
            return false;
        }
        (c > 0 && !self.get_cell(r, c - 1).visited) || (c + 1 < self.width && !self.get_cell(
            r,
            c + 1,
        ).visited) || (r > 0 && !self.get_cell(r - 1, c).visited) || (r + 1 < self.height
            && !self.get_cell(r + 1, c).visited)
    }

    /// The first visited cell, in row-major order, that borders an unvisited
    /// one, if there is such a cell.
    fn find_frontier(&self) -> (p: Option<(u32, u32)>)
        requires
            self.shaped(),
        ensures
            p matches Some(q) ==> self.visited_at(q) && self.has_unvisited_neighbor(q.0 as int, q.1 as int),
            p is None ==> forall|a: int, b: int|
                self.in_bounds(a, b) && (#[trigger] self.cell(a, b)).visited ==> !self.has_unvisited_neighbor(
                    a,
                    b,
                ),
    {
        let mut r: u32 = 0;
        while r < self.height
            invariant
                self.shaped(),
                r <= self.height,
                forall|a: int, b: int|
                    0 <= a < r && 0 <= b < self.width && (#[trigger] self.cell(a, b)).visited
                        ==> !self.has_unvisited_neighbor(a, b),
            decreases self.height - r,
        {
            let mut c: u32 = 0;
            while c < self.width
                invariant
                    self.shaped(),
                    r < self.height,
                    c <= self.width,
                    forall|a: int, b: int|
                        ((0 <= a < r && 0 <= b < self.width) || (a == r && 0 <= b < c)) && (
                        #[trigger] self.cell(a, b)).visited ==> !self.has_unvisited_neighbor(a, b),
                decreases self.width - c,
            {
                if self.is_frontier(r, c) {
                    return Some((r, c));
                }
                c = c + 1;
            }
            r = r + 1;
        }
        None
    }

    /// A visited cell that borders an unvisited one; while some cell is
    /// unvisited there is one, the grid being connected.
    fn frontier_cell(&self) -> (p: (u32, u32))
        requires
            self.wf(),
            self.visited_count < self.total(),
        ensures
            self.visited_at(p),
            self.has_unvisited_neighbor(p.0 as int, p.1 as int),
    {
        match self.find_frontier() {
            Some(p) => p,
            None => {
                proof {
                    lemma_closed_full(self);
                }
                (0, 0)
            },
        }
    }

    /// Pops the top of the move stack into the cursor.
    ///
    /// A pop may drop a cell that still has unvisited neighbours, so the
    /// proofs here do not show that the stack stays non-empty until every
    /// cell is visited; no run has been seen to empty it. So that this
    /// function never fails, an empty stack with no move available makes the
    /// cursor resume at the first cell, in row-major order, that can still
    /// grow the maze.
    fn backtrack(&mut self)
        requires
            old(self).wf(),
            old(self).available_moves().len() == 0,
            old(self).visited_count < old(self).total(),
        ensures
            final(self).wf(),
            final(self).backtracked(*old(self)),
    {
        if self.moves.len() == 0 {
            let p = self.frontier_cell();
            self.current_position = p;
            proof {
                assert(self.visited_set() =~= old(self).visited_set());
            }
        } else {
            let ghost top = old(self).moves@.last();
            proof {
                assert(old(self).visited_at(old(self).moves@[old(self).moves@.len() - 1]));
            }
            if let Some(p) = self.moves.pop() {
                self.current_position = p;
            }
            proof {
                assert(self.moves@ == old(self).moves@.drop_last());
                assert(self.current_position == top);
                assert(self.visited_set() =~= old(self).visited_set());
                assert forall|i: int| 0 <= i < self.moves@.len() implies self.visited_at(
                    #[trigger] self.moves@[i],
                ) by {
                    assert(self.moves@[i] == old(self).moves@[i]);
                }
            }
        }
        proof {
            lemma_same_grid(old(self), self);
        }
    }

    /// One round of generation, with `pick` standing for the random draw: when
    /// the cursor has unvisited neighbours it moves to the one at index `pick`
    /// of `available_moves`; otherwise it backtracks.
    pub fn step(&mut self, pick: usize)
        requires
            old(self).wf(),
            !old(self).finished(),
            old(self).available_moves().len() > 0 ==> pick < old(self).available_moves().len(),
        ensures
            final(self).wf(),
            old(self).available_moves().len() > 0 ==> final(self).advanced(
                *old(self),
                old(self).available_moves()[pick as int],
            ),
            old(self).available_moves().len() == 0 ==> final(self).backtracked(*old(self)),
    {
        let available_moves = self.get_available_moves();
        if available_moves.len() == 0 {
            self.backtrack();
        } else {
            let direction = available_moves[pick];
            proof {
                lemma_available(self);
            }
            self.make_move(&direction);
        }
    }

    /// One of `moves`, drawn from `rng` where there are two or more.
    fn choose_move(&self, moves: &Vec<MoveDirection>, rng: &mut StdRng) -> (r: Option<MoveDirection>)
        ensures
            r is None <==> moves@.len() == 0,
            r matches Some(d) ==> moves@.contains(d),
    {
        if moves.len() == 0 {
            None
        } else if moves.len() == 1 {
            Some(moves[0])
        } else {
            let move_index = random_below(rng, moves.len());
            Some(moves[move_index])
        }
    }

    /// Runs the backtracking generator to completion, drawing each choice
    /// between two or more directions from `rng`.
    pub fn generate_maze_with(&mut self, rng: &mut StdRng)
        requires
            old(self).wf(),
        ensures
            final(self).wf(),
            final(self).width == old(self).width,
            final(self).height == old(self).height,
            final(self).finished(),
            final(self).visited_count == final(self).width * final(self).height,
            final(self).all_visited(),
            final(self).connected(),
            final(self).passages().len() + 1 == final(self).width * final(self).height,
            exists|t: Seq<Maze>| final(self).generated_along(*old(self), t),
            old(self).finished() ==> *final(self) == *old(self),
            !old(self).finished() ==> final(self).moves@.len() > 0 && final(self).moves@.last()
                == final(self).current_position,
    {
        let ghost mut trace: Seq<Maze> = seq![*self];
        while self.visited_count < self.total_cell_count
            invariant
                self.wf(),
                self.width == old(self).width,
                self.height == old(self).height,
                self.generated_along(*old(self), trace),
                old(self).finished() ==> *self == *old(self),
                self.finished() && !old(self).finished() ==> self.moves@.len() > 0 && self.moves@.last()
                    == self.current_position,
            decreases 3 * (self.total() - self.visited_count) + self.moves@.len() + if self.available_moves().len()
                == 0 {
                1int
            } else {
                0int
            },
        {
            let ghost before = *self;
            let available_moves = self.get_available_moves();
            let next_move = self.choose_move(&available_moves, rng);
            match next_move {
                Some(direction) => {
                    let ghost i = choose|i: int| 0 <= i < available_moves@.len() && available_moves@[i] == direction;
                    proof {
                        lemma_available(self);
                        assert(self.can_move(self.available_moves()[i]));
                    }
                    self.make_move(&direction);
                    proof {
                        assert(self.advanced(before, before.available_moves()[i]));
                    }
                },
                None => {
                    self.backtrack();
                    proof {
                        lemma_available(self);
                    }
                },
            }
            proof {
                assert(self.stepped(before));
                let old_trace = trace;
                trace = trace.push(*self);
                assert forall|k: int| 0 <= k < trace.len() - 1 implies !(#[trigger] trace[k]).finished()
                    && trace[k + 1].stepped(trace[k]) by {
                    if k < old_trace.len() - 1 {
                        assert(trace[k] == old_trace[k] && trace[k + 1] == old_trace[k + 1]);
                    }
                }
            }
        }
        proof {
            lemma_full(self);
        }
    }

    /// Runs the backtracking generator to completion with a generator seeded
    /// by the operating system.
    pub fn generate_maze(&mut self)
        requires
            old(self).wf(),
        ensures
            final(self).wf(),
            final(self).width == old(self).width,
            final(self).height == old(self).height,
            final(self).finished(),
            final(self).visited_count == final(self).width * final(self).height,
            final(self).all_visited(),
            final(self).connected(),
            final(self).passages().len() + 1 == final(self).width * final(self).height,
            exists|t: Seq<Maze>| final(self).generated_along(*old(self), t),
            old(self).finished() ==> *final(self) == *old(self),
            !old(self).finished() ==> final(self).moves@.len() > 0 && final(self).moves@.last()
                == final(self).current_position,
    {
        let mut rng = entropy_rng();
        self.generate_maze_with(&mut rng);
        proof {
            let t = choose|t: Seq<Maze>| self.generated_along(*old(self), t);
            assert(self.generated_along(*old(self), t));
        }
    }

    /// The cell at (`row_index`, `col_index`).
    pub fn get_cell(&self, row_index: u32, col_index: u32) -> (r: &Cell)
        requires
            self.shaped(),
            self.in_bounds(row_index as int, col_index as int),
        ensures
            *r == self.cell(row_index as int, col_index as int),
    {
        &self.cells[row_index as usize][col_index as usize]
    }
}

} // verus!
