use crate::canvas::{dimensions_of, filled_map, pixels_of, Canvas};
use crate::maze::{BorderType, Maze};
use vstd::prelude::*;

verus! {

/// Colour of open floor.
pub open spec fn background_color() -> (u8, u8, u8) {
    (248u8, 248u8, 248u8)
}

/// Colour of wall lines.
pub open spec fn wall_color() -> (u8, u8, u8) {
    (128u8, 128u8, 128u8)
}

/// Colour of the stripes that mark the origin and the deepest cell.
pub open spec fn accent_color() -> (u8, u8, u8) {
    (252u8, 3u8, 94u8)
}

/// Offset (`i`, `j`) inside a cell block of side `res` belongs to the stripe
/// pattern: strictly inside the block, on a diagonal where `i + j` is 0 or 3
/// modulo 4.
pub open spec fn stripe_at(res: int, i: int, j: int) -> bool {
    &&& 1 <= i <= res - 2
    &&& 1 <= j <= res - 2
    &&& ((i + j) % 4 == 0 || (i + j + 1) % 4 == 0)
}

/// The colour of pixel (`x`, `y`) of `m` drawn with `res` pixels per cell
/// edge: stripes in the blocks of the origin and of the deepest marker, wall
/// colour on the edge rows and columns of a block whose side is a wall,
/// background elsewhere.
pub open spec fn pixel_spec(m: Maze, res: int, x: int, y: int) -> (u8, u8, u8) {
    let r = y / res;
    let c = x / res;
    let i = y % res;
    let j = x % res;
    let cell = m.cell(r, c);
    let marked = (r == m.start_position.0 && c == m.start_position.1) || (r == 0 && c == 0);
    if marked && stripe_at(res, i, j) {
        accent_color()
    } else if (i == 0 && cell.up == BorderType::Wall) || (i == res - 1 && cell.down == BorderType::Wall)
        || (j == 0 && cell.left == BorderType::Wall) || (j == res - 1 && cell.right == BorderType::Wall) {
        wall_color()
    } else {
        background_color()
    }
}

/// Every pixel of `m` drawn with `res` pixels per cell edge.
pub open spec fn rendered(m: Maze, res: int) -> Map<(int, int), (u8, u8, u8)> {
    Map::new(
        |p: (int, int)| 0 <= p.0 < m.width * res && 0 <= p.1 < m.height * res,
        |p: (int, int)| pixel_spec(m, res, p.0, p.1),
    )
}

/// What `render` asks of its arguments: a shaped grid, a marker in it, room
/// for the stripes, and a pixel buffer whose size fits the machine.
pub open spec fn renderable(m: Maze, res: int) -> bool {
    &&& m.shaped()
    &&& m.width >= 1
    &&& m.height >= 1
    &&& m.in_bounds(m.start_position.0 as int, m.start_position.1 as int)
    &&& res >= 2
    &&& m.width * res <= u32::MAX
    &&& m.height * res <= u32::MAX
    &&& 3 * (m.width * res) * (m.height * res) <= usize::MAX
}

proof fn lemma_block(v: int, res: int, n: int)
    requires
        res > 0,
        0 <= v < n * res,
    ensures
        0 <= v / res < n,
        0 <= v % res < res,
{
    vstd::arithmetic::div_mod::lemma_fundamental_div_mod(v, res);
    vstd::arithmetic::div_mod::lemma_mod_bound(v, res);
    vstd::arithmetic::div_mod::lemma_div_pos_is_pos(v, res);
    let q = v / res;
    let r = v % res;
    assert(q < n) by (nonlinear_arith)
        requires
            v == res * q + r,
            0 <= r < res,
            v < n * res,
            res > 0,
    ;
}

/// Rendering is a function of the maze, the marker and the resolution alone:
/// any two canvases that `render` returns for the same maze and resolution
/// hold the same pixels and have the same size.
pub proof fn render_deterministic(m: Maze, res: int, a: Canvas, b: Canvas)
    requires
        renderable(m, res),
        dimensions_of(a) == ((m.width * res) as u32, (m.height * res) as u32),
        pixels_of(a) == rendered(m, res),
        dimensions_of(b) == ((m.width * res) as u32, (m.height * res) as u32),
        pixels_of(b) == rendered(m, res),
    ensures
        pixels_of(a) == pixels_of(b),
        dimensions_of(a) == dimensions_of(b),
{
}

impl Maze {
    /// The colour of pixel (`x`, `y`) when each cell is `resolution` pixels wide.
    pub fn pixel_color(&self, resolution: u32, x: u32, y: u32) -> (r: (u8, u8, u8))
        requires
            renderable(*self, resolution as int),
            x < self.width * resolution,
            y < self.height * resolution,
        ensures
            r == pixel_spec(*self, resolution as int, x as int, y as int),
    {
        proof {
            lemma_block(y as int, resolution as int, self.height as int);
            lemma_block(x as int, resolution as int, self.width as int);
        }
        let row = y / resolution;
        let col = x / resolution;
        let i = y % resolution;
        let j = x % resolution;
        let marked = (row == self.start_position.0 && col == self.start_position.1) || (row == 0 && col
            == 0);
        let stripe = 1 <= i && i <= resolution - 2 && 1 <= j && j <= resolution - 2 && ((i as u64 + j as u64)
            % 4 == 0 || (i as u64 + j as u64 + 1) % 4 == 0);
        if marked && stripe {
            return (252, 3, 94);
        }
        let cell = self.get_cell(row, col);
        if (i == 0 && cell.up == BorderType::Wall) || (i == resolution - 1 && cell.down == BorderType::Wall)
            || (j == 0 && cell.left == BorderType::Wall) || (j == resolution - 1 && cell.right
            == BorderType::Wall) {
            (128, 128, 128)
        } else {
            (248, 248, 248)
        }
    }

    /// Draws the maze with `resolution` pixels per cell edge: a canvas of
    /// `width * resolution` by `height * resolution` pixels in which every
    /// pixel has the colour `pixel_spec` gives it. The maze is not changed.
    pub fn render(&self, resolution: u32) -> (img: Canvas)
        requires
            renderable(*self, resolution as int),
        ensures
            dimensions_of(img) == ((self.width * resolution) as u32, (self.height * resolution) as u32),
            pixels_of(img) == rendered(*self, resolution as int),
    {
        let w = self.width * resolution;
        let h = self.height * resolution;
        let mut img = Canvas::filled(w, h, (248, 248, 248));
        let ghost res = resolution as int;
        let mut y: u32 = 0;
        while y < h
            invariant
                renderable(*self, res),
                res == resolution,
                w == self.width * res,
                h == self.height * res,
                y <= h,
                dimensions_of(img) == (w, h),
                pixels_of(img) == Map::new(
                    |p: (int, int)| 0 <= p.0 < w && 0 <= p.1 < h,
                    |p: (int, int)|
                        if p.1 < y {
                            pixel_spec(*self, res, p.0, p.1)
                        } else {
                            background_color()
                        },
                ),
            decreases h - y,
        {
            let mut x: u32 = 0;
            while x < w
                invariant
                    renderable(*self, res),
                    res == resolution,
                    w == self.width * res,
                    h == self.height * res,
                    y < h,
                    x <= w,
                    dimensions_of(img) == (w, h),
                    pixels_of(img) == Map::new(
                        |p: (int, int)| 0 <= p.0 < w && 0 <= p.1 < h,
                        |p: (int, int)|
                            if p.1 < y || (p.1 == y && p.0 < x) {
                                pixel_spec(*self, res, p.0, p.1)
                            } else {
                                background_color()
                            },
                    ),
                decreases w - x,
            {
                let color = self.pixel_color(resolution, x, y);
                img.paint(x, y, color);
                proof {
                    assert(pixels_of(img) =~= Map::new(
                        |p: (int, int)| 0 <= p.0 < w && 0 <= p.1 < h,
                        |p: (int, int)|
                            if p.1 < y || (p.1 == y && p.0 < x + 1) {
                                pixel_spec(*self, res, p.0, p.1)
                            } else {
                                background_color()
                            },
                    ));
                }
                x = x + 1;
            }
            proof {
                assert(pixels_of(img) =~= Map::new(
                    |p: (int, int)| 0 <= p.0 < w && 0 <= p.1 < h,
                    |p: (int, int)|
                        if p.1 < y + 1 {
                            pixel_spec(*self, res, p.0, p.1)
                        } else {
                            background_color()
                        },
                ));
            }
            y = y + 1;
        }
        proof {
            assert(pixels_of(img) =~= rendered(*self, res));
        }
        img
    }
}

} // verus!
