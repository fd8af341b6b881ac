//! Table geometry: window and cushion sizes, pockets and the rack of red balls.
use vstd::prelude::*;

verus! {

/// Width of the window, in pixels.
pub const WINDOW_WIDTH: u32 = 1920;
/// Height of the window, in pixels.
pub const WINDOW_HEIGHT: u32 = 1080;
/// Width of the cushion drawn around the cloth.
pub const BORDER: u32 = 40;
/// Side of one broad-phase grid cell.
pub const CELL_SIZE: u32 = 40;
/// Number of cells across the cloth: (WINDOW_WIDTH - 2 * BORDER) / CELL_SIZE.
pub const GRID_WIDTH: usize = 46;
/// Number of cells down the cloth: (WINDOW_HEIGHT - 2 * BORDER) / CELL_SIZE.
pub const GRID_HEIGHT: usize = 25;
/// Right edge of the playing field.
pub const FIELD_WIDTH: u32 = WINDOW_WIDTH - BORDER;
/// Bottom edge of the playing field.
pub const FIELD_HEIGHT: u32 = WINDOW_HEIGHT - BORDER;
/// Radius of every pocket.
pub const HOLES_RADIUS: u32 = 36;
/// Radius of every ball.
pub const BALL_RADIUS: u32 = 18;
/// Number of red balls in the rack.
pub const RED_BALLS: usize = 15;
/// Where the cue ball is placed at the start and after it is pocketed.
pub const CUE_SPOT_X: u32 = 200;
/// Where the cue ball is placed at the start and after it is pocketed.
pub const CUE_SPOT_Y: u32 = 540;
/// Centre of the apex ball of the rack.
pub const RACK_X: u32 = 1500;
/// Centre of the apex ball of the rack.
pub const RACK_Y: u32 = 540;

/// A pocket: its centre and its radius.
#[derive(Clone, Copy, Debug, PartialEq, Eq)]
pub struct Hole {
    pub x: u32,
    pub y: u32,
    pub radius: u32,
}

/// The six pockets of the table.
pub struct Holes {
    pub holes: Vec<Hole>,
}

/// The centres of the six pockets, in the order the table lists them:
/// the four corners clockwise from the top left, then the bottom and top middle.
pub open spec fn hole_point(i: int) -> (int, int) {
    let r = HOLES_RADIUS as int;
    let w = WINDOW_WIDTH as int;
    let h = WINDOW_HEIGHT as int;
    if i == 0 {
        (r, r)
    } else if i == 1 {
        (w - r, r)
    } else if i == 2 {
        (w - r, h - r)
    } else if i == 3 {
        (r, h - r)
    } else if i == 4 {
        (w / 2, h - r)
    } else {
        (w / 2, r)
    }
}

/// The table's pockets as a sequence.
pub open spec fn table_holes() -> Seq<Hole> {
    Seq::new(6, |i: int| Hole {
        x: hole_point(i).0 as u32,
        y: hole_point(i).1 as u32,
        radius: HOLES_RADIUS,
    })
}

impl Holes {
    /// The six pockets of the table.
    pub fn new() -> (r: Holes)
        ensures
            r.holes@ == table_holes(),
    {
        let points: [(u32, u32); 6] = [
            (0 + HOLES_RADIUS, 0 + HOLES_RADIUS),
            (WINDOW_WIDTH - HOLES_RADIUS, 0 + HOLES_RADIUS),
            (WINDOW_WIDTH - HOLES_RADIUS, WINDOW_HEIGHT - HOLES_RADIUS),
            (0 + HOLES_RADIUS, WINDOW_HEIGHT - HOLES_RADIUS),
            (WINDOW_WIDTH / 2, WINDOW_HEIGHT - HOLES_RADIUS),
            (WINDOW_WIDTH / 2, 0 + HOLES_RADIUS),
        ];
        let mut holes: Vec<Hole> = Vec::new();
        let mut i: usize = 0;
        while i < 6
            invariant
                0 <= i <= 6,
                holes@.len() == i,
                forall|k: int| 0 <= k < 6 ==> points[k].0 == hole_point(k).0 && points[k].1 == hole_point(k).1,
                forall|k: int| 0 <= k < i ==> holes@[k] == table_holes()[k],
            decreases 6 - i,
        {
            holes.push(Hole { x: points[i].0, y: points[i].1, radius: HOLES_RADIUS });
            i = i + 1;
        }
        assert(holes@ =~= table_holes());
        Holes { holes }
    }
}

/// Where a red ball starts: its number and the centre of its spot.
#[derive(Clone, Copy, Debug, PartialEq, Eq)]
pub struct RackSpot {
    pub number: usize,
    pub x: u32,
    pub y: u32,
}

/// The column of the triangular rack (0 for the apex) that holds ball `n`:
/// the columns hold 1, 2, 3, 4 and 5 balls, numbered in order.
pub open spec fn rack_column(n: int) -> int {
    if n <= 1 {
        0
    } else if n <= 3 {
        1
    } else if n <= 6 {
        2
    } else if n <= 10 {
        3
    } else {
        4
    }
}

/// How many balls the columns before column `c` hold (the triangular numbers).
pub open spec fn balls_before(c: int) -> int {
    if c <= 0 {
        0
    } else if c == 1 {
        1
    } else if c == 2 {
        3
    } else if c == 3 {
        6
    } else if c == 4 {
        10
    } else {
        15
    }
}

/// The place of ball `n` within its column, counted from the bottom ball.
pub open spec fn rack_row(n: int) -> int {
    n - 1 - balls_before(rack_column(n))
}

/// Horizontal centre of ball `n` in the rack: columns stand one diameter
/// apart, to the right of the apex.
pub open spec fn rack_x(n: int) -> int {
    RACK_X + 2 * BALL_RADIUS * rack_column(n)
}

/// Vertical centre of ball `n` in the rack: each column is centred on the
/// apex line and its balls stand one diameter apart, going up.
pub open spec fn rack_y(n: int) -> int {
    RACK_Y + BALL_RADIUS * rack_column(n) - 2 * BALL_RADIUS * rack_row(n)
}

/// Ball `n`'s spot in the rack.
pub open spec fn spot_of(s: RackSpot, n: int) -> bool {
    s.number == n && s.x == rack_x(n) && s.y == rack_y(n)
}

/// The fifteen red balls, numbered 1 to 15, in their starting triangle.
pub fn rack_layout() -> (spots: Vec<RackSpot>)
    ensures
        spots@.len() == RED_BALLS,
        forall|k: int| 0 <= k < RED_BALLS ==> spot_of(#[trigger] spots@[k], k + 1),
{
    let mut x: u32 = RACK_X;
    let mut y: u32 = RACK_Y;
    let mut aux_index: usize = 0;
    let aux_array: [usize; 5] = [1, 3, 6, 10, 15];
    let mut spots: Vec<RackSpot> = Vec::new();
    let mut i: usize = 1;
    while i <= RED_BALLS
        invariant
            1 <= i <= RED_BALLS + 1,
            spots@.len() == i - 1,
            forall|k: int| 0 <= k < i - 1 ==> spot_of(#[trigger] spots@[k], k + 1),
            forall|c: int| 0 <= c < 5 ==> aux_array[c] == balls_before(c + 1),
            i <= RED_BALLS ==> {
                &&& aux_index == rack_column(i as int)
                &&& x == rack_x(i as int)
                &&& y == rack_y(i as int)
            },
        decreases RED_BALLS + 1 - i,
    {
        spots.push(RackSpot { number: i, x, y });
        if i == aux_array[aux_index] {
            aux_index += 1;
            x += BALL_RADIUS * 2;
            y = RACK_Y + (aux_index as u32) * BALL_RADIUS;
        } else {
            y -= BALL_RADIUS * 2;
        }
        i += 1;
    }
    spots
}

/// Squared distance between two centres.
pub open spec fn dist_sq(x1: int, y1: int, x2: int, y2: int) -> int {
    (x1 - x2) * (x1 - x2) + (y1 - y2) * (y1 - y2)
}

proof fn lemma_square_at_least(a: int, b: int, m: int)
    by (nonlinear_arith)
    requires
        m >= 0,
        a >= m || a <= -m,
    ensures
        a * a + b * b >= m * m,
{
}

/// No two balls of the rack overlap: their centres are at least one diameter apart.
pub proof fn lemma_rack_balls_do_not_overlap(a: int, b: int)
    requires
        1 <= a <= RED_BALLS,
        1 <= b <= RED_BALLS,
        a != b,
    ensures
        dist_sq(rack_x(a), rack_y(a), rack_x(b), rack_y(b)) >= (2 * BALL_RADIUS) * (2 * BALL_RADIUS),
{
    let d = 2 * BALL_RADIUS as int;
    if rack_column(a) != rack_column(b) {
        lemma_square_at_least(rack_x(a) - rack_x(b), rack_y(a) - rack_y(b), d);
    } else {
        lemma_square_at_least(rack_y(a) - rack_y(b), rack_x(a) - rack_x(b), d);
    }
}

/// Every ball of the rack lies on the cloth, clear of the cushions.
pub proof fn lemma_rack_on_cloth(n: int)
    requires
        1 <= n <= RED_BALLS,
    ensures
        BORDER + BALL_RADIUS <= rack_x(n) <= FIELD_WIDTH - BALL_RADIUS,
        BORDER + BALL_RADIUS <= rack_y(n) <= FIELD_HEIGHT - BALL_RADIUS,
{
    assert(0 <= rack_row(n) <= rack_column(n) <= 4);
}

/// A ball kept on the cloth, clear of the cushions, always stands in a cell of
/// the broad-phase grid (`GRID_HEIGHT + 1` rows of `GRID_WIDTH + 1` cells).
pub proof fn lemma_cloth_fits_grid(x: int, y: int)
    requires
        BORDER + BALL_RADIUS <= x <= FIELD_WIDTH - BALL_RADIUS,
        BORDER + BALL_RADIUS <= y <= FIELD_HEIGHT - BALL_RADIUS,
    ensures
        GRID_WIDTH == (WINDOW_WIDTH - 2 * BORDER) / CELL_SIZE as int,
        GRID_HEIGHT == (WINDOW_HEIGHT - 2 * BORDER) / CELL_SIZE as int,
        0 <= x / CELL_SIZE as int <= GRID_WIDTH,
        0 <= y / CELL_SIZE as int <= GRID_HEIGHT,
{
}

/// The shape of the rack: the apex ball 1 stands on the rack spot; a ball that
/// is not the last of its column has the next ball one diameter above it; and
/// the first ball of each new column (2, 4, 7, 11) stands one diameter to the
/// right of the previous column's first ball and one radius lower.
pub proof fn lemma_rack_shape(n: int)
    requires
        1 <= n < RED_BALLS,
    ensures
        rack_x(1) == RACK_X && rack_y(1) == RACK_Y,
        (n + 1 != 2 && n + 1 != 4 && n + 1 != 7 && n + 1 != 11) ==> rack_x(n + 1) == rack_x(n) && rack_y(n + 1)
            == rack_y(n) - 2 * BALL_RADIUS,
        n + 1 == 2 ==> rack_x(2) == rack_x(1) + 2 * BALL_RADIUS && rack_y(2) == rack_y(1) + BALL_RADIUS,
        n + 1 == 4 ==> rack_x(4) == rack_x(2) + 2 * BALL_RADIUS && rack_y(4) == rack_y(2) + BALL_RADIUS,
        n + 1 == 7 ==> rack_x(7) == rack_x(4) + 2 * BALL_RADIUS && rack_y(7) == rack_y(4) + BALL_RADIUS,
        n + 1 == 11 ==> rack_x(11) == rack_x(7) + 2 * BALL_RADIUS && rack_y(11) == rack_y(7) + BALL_RADIUS,
{
}

/// The six pockets: each of radius `HOLES_RADIUS`, centred one pocket radius in
/// from the window's edges, at the four corners and the middles of the top and
/// bottom edges, no two alike.
pub proof fn lemma_pockets_on_the_edges()
    ensures
        table_holes().len() == 6,
        forall|i: int| 0 <= i < 6 ==> (#[trigger] table_holes()[i]).radius == HOLES_RADIUS,
        forall|i: int|
            0 <= i < 6 ==> {
                let h = #[trigger] table_holes()[i];
                &&& (h.x == HOLES_RADIUS || h.x == WINDOW_WIDTH / 2 || h.x == WINDOW_WIDTH - HOLES_RADIUS)
                &&& (h.y == HOLES_RADIUS || h.y == WINDOW_HEIGHT - HOLES_RADIUS)
            },
        forall|i: int, j: int|
            0 <= i < j < 6 ==> (#[trigger] table_holes()[i].x != #[trigger] table_holes()[j].x || table_holes()[i].y
                != table_holes()[j].y),
        table_holes()[0].x == HOLES_RADIUS && table_holes()[0].y == HOLES_RADIUS,
        table_holes()[4].x == WINDOW_WIDTH / 2 && table_holes()[4].y == WINDOW_HEIGHT - HOLES_RADIUS,
{
}

} // verus!
