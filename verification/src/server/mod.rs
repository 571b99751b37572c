//! The stock grid of the warehouse and the colours of the blocks it holds.
use vstd::prelude::*;

use crate::text::{
    boundary_after, boundary_before, byte_len, byte_slice, chars_of, contains, contains_seq, copy_range,
    find, find_byte, lines, lines_of, lowercase_of, parse_decimal, parse_unsigned, same_chars,
    to_lowercase, trim, trim_chars, views,
};

pub mod internal;

verus! {

/// Number of columns of the grid.
pub const XMAX: usize = 4;

/// Number of rows of the grid.
pub const YMAX: usize = 6;

/// Where a block stands in the grid.
#[derive(Clone, Copy, Debug, PartialEq, Eq, Structural)]
pub struct Position {
    pub position_x: usize,
    pub position_y: usize,
}

/// A grid cell together with the product type stored in it.
#[derive(Clone, Copy, Debug, PartialEq, Eq, Structural)]
pub struct PositionWithColor {
    pub position_x: usize,
    pub position_y: usize,
    pub product_type_id: u8,
}

/// The colour of a block; `Empty` marks an empty cell.
#[derive(Clone, Copy, Debug, PartialEq, Eq, Structural)]
pub enum Color {
    Empty,
    Red,
    Yellow,
    Green,
    Blue,
}

/// The number a colour is stored as in the grid (and sent as a product type).
pub open spec fn color_id(c: Color) -> u8 {
    match c {
        Color::Empty => 0,
        Color::Red => 1,
        Color::Yellow => 2,
        Color::Green => 3,
        Color::Blue => 4,
    }
}

/// The colour stored as `v`, for `v` in `1..=4`.
pub open spec fn color_of_id(v: u8) -> Color {
    if v == 1 {
        Color::Red
    } else if v == 2 {
        Color::Yellow
    } else if v == 3 {
        Color::Green
    } else if v == 4 {
        Color::Blue
    } else {
        Color::Empty
    }
}

/// The colour a lower-case name denotes.
pub open spec fn color_named(s: Seq<char>) -> Option<Color> {
    if s == seq!['r', 'e', 'd'] {
        Some(Color::Red)
    } else if s == seq!['y', 'e', 'l', 'l', 'o', 'w'] {
        Some(Color::Yellow)
    } else if s == seq!['g', 'r', 'e', 'e', 'n'] {
        Some(Color::Green)
    } else if s == seq!['b', 'l', 'u', 'e'] {
        Some(Color::Blue)
    } else {
        None
    }
}

/// The name of a colour other than `Empty`.
pub open spec fn color_name(c: Color) -> Seq<char> {
    match c {
        Color::Red => seq!['r', 'e', 'd'],
        Color::Yellow => seq!['y', 'e', 'l', 'l', 'o', 'w'],
        Color::Green => seq!['g', 'r', 'e', 'e', 'n'],
        _ => seq!['b', 'l', 'u', 'e'],
    }
}

impl Color {
    /// The colour named by `s` (`"red"`, `"yellow"`, `"green"` or `"blue"`).
    pub fn from_chars(s: &Vec<char>) -> (r: Option<Color>)
        ensures
            r == color_named(s@),
    {
        let red: Vec<char> = vec!['r', 'e', 'd'];
        let yellow: Vec<char> = vec!['y', 'e', 'l', 'l', 'o', 'w'];
        let green: Vec<char> = vec!['g', 'r', 'e', 'e', 'n'];
        let blue: Vec<char> = vec!['b', 'l', 'u', 'e'];
        if same_chars(s, &red) {
            Some(Color::Red)
        } else if same_chars(s, &yellow) {
            Some(Color::Yellow)
        } else if same_chars(s, &green) {
            Some(Color::Green)
        } else if same_chars(s, &blue) {
            Some(Color::Blue)
        } else {
            None
        }
    }

    /// The colour named by `s` (`"red"`, `"yellow"`, `"green"` or `"blue"`).
    pub fn from_str(s: &str) -> (r: Option<Color>)
        ensures
            r == color_named(s@),
    {
        let chars: Vec<char> = chars_of(s);
        Color::from_chars(&chars)
    }

    /// The name of the colour; `Empty` has no name.
    pub fn to_str(self) -> (r: &'static str)
        requires
            self != Color::Empty,
        ensures
            r@ == color_name(self),
    {
        match self {
            Color::Red => {
                proof {
                    reveal_strlit("red");
                }
                "red"
            },
            Color::Yellow => {
                proof {
                    reveal_strlit("yellow");
                }
                "yellow"
            },
            Color::Green => {
                proof {
                    reveal_strlit("green");
                }
                "green"
            },
            _ => {
                proof {
                    reveal_strlit("blue");
                }
                "blue"
            },
        }
    }

    /// The colour stored as `value`; only `1..=4` name a colour.
    pub fn from(value: u8) -> (r: Color)
        requires
            1 <= value <= 4,
        ensures
            r == color_of_id(value),
            color_id(r) == value,
    {
        if value == 1 {
            Color::Red
        } else if value == 2 {
            Color::Yellow
        } else if value == 3 {
            Color::Green
        } else {
            Color::Blue
        }
    }

    /// The number the colour is stored as.
    pub fn to_u8(self) -> (r: u8)
        ensures
            r == color_id(self),
    {
        match self {
            Color::Empty => 0,
            Color::Red => 1,
            Color::Yellow => 2,
            Color::Green => 3,
            Color::Blue => 4,
        }
    }
}


/// The shelf: `grid[x][y]` is the number of the colour stored in column `x`,
/// row `y` (`0` for an empty cell).
#[derive(Clone, Copy)]
pub struct Grid {
    grid: [[u8; YMAX]; XMAX],
}

impl View for Grid {
    type V = Seq<Seq<u8>>;

    /// The cells, column by column: `self@[x][y]`.
    closed spec fn view(&self) -> Seq<Seq<u8>> {
        cells_of(self.grid)
    }
}

/// The cells of a shelf array, column by column.
pub open spec fn cells_of(a: [[u8; YMAX]; XMAX]) -> Seq<Seq<u8>> {
    a@.map_values(|column: [u8; YMAX]| column@)
}

/// The cells form `XMAX` columns of `YMAX` rows.
pub open spec fn grid_shaped(cells: Seq<Seq<u8>>) -> bool {
    cells.len() == XMAX && forall|x: int| 0 <= x < XMAX ==> #[trigger] cells[x].len() == YMAX
}

/// Columns the scans of the grid visit: all but the last.
pub open spec fn scan_cols() -> int {
    XMAX - 1
}

/// Rows the scans of the grid visit: all but the last.
pub open spec fn scan_rows() -> int {
    YMAX - 1
}

/// Number of cells a scan visits.
pub open spec fn scan_len() -> int {
    scan_cols() * scan_rows()
}

/// Column of the `k`-th cell of a scan (rows outside, columns inside).
pub open spec fn scan_x(k: int) -> int {
    k % scan_cols()
}

/// Row of the `k`-th cell of a scan.
pub open spec fn scan_y(k: int) -> int {
    k / scan_cols()
}

/// Position of the `k`-th cell of a scan.
pub open spec fn scan_position(k: int) -> Position {
    Position { position_x: scan_x(k) as usize, position_y: scan_y(k) as usize }
}

/// Value of the `k`-th cell of a scan.
pub open spec fn scanned(cells: Seq<Seq<u8>>, k: int) -> u8 {
    cells[scan_x(k)][scan_y(k)]
}

/// Number of cells holding `v` among the first `k` cells of a scan.
pub open spec fn count_value(cells: Seq<Seq<u8>>, v: u8, k: int) -> nat
    decreases k,
{
    if k <= 0 {
        0
    } else {
        count_value(cells, v, k - 1) + if scanned(cells, k - 1) == v {
            1nat
        } else {
            0nat
        }
    }
}

/// `get_free` is defined: every scanned cell holds an empty cell or one of the
/// first three colours (a blue block, or anything larger, makes it panic).
pub open spec fn free_counts_defined(cells: Seq<Seq<u8>>) -> bool {
    forall|k: int| 0 <= k < scan_len() ==> #[trigger] scanned(cells, k) < 4
}

/// The `k`-th scanned cell holds a colour `c` in `1..=4` and fewer than
/// `objects[c - 1]` cells of colour `c` came before it in the scan.
pub open spec fn picked(cells: Seq<Seq<u8>>, objects: Seq<u16>, k: int) -> bool {
    let c = scanned(cells, k);
    1 <= c <= 4 && count_value(cells, c, k) < objects[c - 1]
}

/// The positions that `get_positions_for_order` picks among the first `k`
/// scanned cells: a cell of colour `c` (in `1..=4`) is picked when fewer
/// than `objects[c - 1]` cells of that colour came before it in the scan.
pub open spec fn chosen(cells: Seq<Seq<u8>>, objects: Seq<u16>, k: int) -> Seq<Position>
    decreases k,
{
    if k <= 0 {
        seq![]
    } else {
        let prev = chosen(cells, objects, k - 1);
        if picked(cells, objects, k - 1) {
            prev.push(scan_position(k - 1))
        } else {
            prev
        }
    }
}

/// The first empty cell of a scan, from its `k`-th cell on.
pub open spec fn free_from(cells: Seq<Seq<u8>>, k: int) -> Option<(usize, usize)>
    decreases scan_len() - k,
{
    if k < 0 || k >= scan_len() {
        None
    } else if scanned(cells, k) == 0 {
        Some((scan_x(k) as usize, scan_y(k) as usize))
    } else {
        free_from(cells, k + 1)
    }
}

/// Some position of `ps` is `(x, y)`.
pub open spec fn listed(ps: Seq<Position>, x: int, y: int) -> bool {
    exists|i: int| 0 <= i < ps.len() && ps[i].position_x == x && ps[i].position_y == y
}

proof fn lemma_scan_index(x: int, y: int)
    requires
        0 <= x < scan_cols(),
        0 <= y,
    ensures
        scan_x(y * scan_cols() + x) == x,
        scan_y(y * scan_cols() + x) == y,
{
    assert((y * 3 + x) % 3 == x && (y * 3 + x) / 3 == y) by (nonlinear_arith)
        requires
            0 <= x < 3,
            0 <= y,
    ;
}

/// Counts only grow along a scan.
pub proof fn lemma_count_value_grows(cells: Seq<Seq<u8>>, v: u8, k: int, k2: int)
    requires
        k <= k2,
    ensures
        count_value(cells, v, k) <= count_value(cells, v, k2),
    decreases k2 - k,
{
    if k < k2 {
        lemma_count_value_grows(cells, v, k, k2 - 1);
    }
}

/// Once every requested colour has been met, no later cell is picked.
proof fn lemma_chosen_settled(cells: Seq<Seq<u8>>, objects: Seq<u16>, k: int, k2: int)
    requires
        0 <= k <= k2,
        forall|c: int| 1 <= c <= 4 ==> count_value(cells, c as u8, k) >= #[trigger] objects[c - 1],
    ensures
        chosen(cells, objects, k2) == chosen(cells, objects, k),
    decreases k2 - k,
{
    if k < k2 {
        lemma_chosen_settled(cells, objects, k, k2 - 1);
        let c = scanned(cells, k2 - 1);
        if 1 <= c <= 4 {
            lemma_count_value_grows(cells, c, k, k2 - 1);
            assert(objects[c - 1] <= count_value(cells, c as u8, k));
        }
    }
}

/// How many of a request of `req` blocks are still missing after `found` were picked.
pub open spec fn still_wanted(req: u16, found: nat) -> int {
    if found >= req {
        0
    } else {
        req - found
    }
}

/// Number of picked cells of colour `c` among the first `k` cells of a scan.
pub open spec fn picked_count(cells: Seq<Seq<u8>>, objects: Seq<u16>, c: u8, k: int) -> nat
    decreases k,
{
    if k <= 0 {
        0
    } else {
        picked_count(cells, objects, c, k - 1) + if scanned(cells, k - 1) == c && picked(
            cells,
            objects,
            k - 1,
        ) {
            1nat
        } else {
            0nat
        }
    }
}

/// Number of positions of `ps` whose cell holds `c`.
pub open spec fn positions_with(cells: Seq<Seq<u8>>, ps: Seq<Position>, c: u8) -> nat
    decreases ps.len(),
{
    if ps.len() == 0 {
        0
    } else {
        positions_with(cells, ps.drop_last(), c) + if cells[ps.last().position_x as int][ps.last().position_y as int] == c {
            1nat
        } else {
            0nat
        }
    }
}

/// The smaller of two numbers.
pub open spec fn min_of(a: int, b: int) -> int {
    if a <= b {
        a
    } else {
        b
    }
}

proof fn lemma_scan_bounds(k: int)
    requires
        0 <= k < scan_len(),
    ensures
        0 <= scan_x(k) < scan_cols(),
        0 <= scan_y(k) < scan_rows(),
        k == scan_y(k) * scan_cols() + scan_x(k),
{
    assert(0 <= k % 3 < 3 && 0 <= k / 3 < 5 && k == (k / 3) * 3 + k % 3) by (nonlinear_arith)
        requires
            0 <= k < 15,
    ;
}

proof fn lemma_picked_count(cells: Seq<Seq<u8>>, objects: Seq<u16>, c: u8, k: int)
    requires
        1 <= c <= 4,
        0 <= k,
    ensures
        picked_count(cells, objects, c, k) == min_of(
            objects[c - 1] as int,
            count_value(cells, c, k) as int,
        ),
    decreases k,
{
    if k > 0 {
        lemma_picked_count(cells, objects, c, k - 1);
    }
}

proof fn lemma_positions_with_chosen(cells: Seq<Seq<u8>>, objects: Seq<u16>, c: u8, k: int)
    requires
        0 <= k <= scan_len(),
    ensures
        positions_with(cells, chosen(cells, objects, k), c) == picked_count(cells, objects, c, k),
    decreases k,
{
    if k > 0 {
        lemma_positions_with_chosen(cells, objects, c, k - 1);
        lemma_scan_bounds(k - 1);
        if picked(cells, objects, k - 1) {
            assert(chosen(cells, objects, k).drop_last() =~= chosen(cells, objects, k - 1));
        }
    }
}

/// An order is served as far as stock allows: of every colour it picks as
/// many blocks as were asked for, or all that the scanned cells hold if
/// fewer.
pub proof fn law_order_fills_request(cells: Seq<Seq<u8>>, objects: Seq<u16>, c: u8)
    requires
        1 <= c <= 4,
    ensures
        positions_with(cells, chosen(cells, objects, scan_len()), c) == min_of(
            objects[c - 1] as int,
            count_value(cells, c, scan_len()) as int,
        ),
{
    lemma_positions_with_chosen(cells, objects, c, scan_len());
    lemma_picked_count(cells, objects, c, scan_len());
}

/// An order only lists scanned cells, and a scanned cell is listed exactly
/// when the scan picked it (it holds a colour still wanted at that point).
pub proof fn law_order_lists_picked_cells(cells: Seq<Seq<u8>>, objects: Seq<u16>, k: int)
    requires
        0 <= k < scan_len(),
    ensures
        listed(chosen(cells, objects, scan_len()), scan_x(k), scan_y(k)) <==> picked(
            cells,
            objects,
            k,
        ),
        forall|i: int|
            0 <= i < chosen(cells, objects, scan_len()).len() ==> (#[trigger] chosen(
                cells,
                objects,
                scan_len(),
            )[i]).position_x < scan_cols() && chosen(cells, objects, scan_len())[i].position_y
                < scan_rows(),
{
    lemma_listed_chosen(cells, objects, scan_len(), k);
    lemma_chosen_from_scan(cells, objects, scan_len());
}

proof fn lemma_chosen_from_scan(cells: Seq<Seq<u8>>, objects: Seq<u16>, n: int)
    requires
        0 <= n <= scan_len(),
    ensures
        forall|i: int|
            0 <= i < chosen(cells, objects, n).len() ==> (#[trigger] chosen(cells, objects, n)[i]).position_x
                < scan_cols() && chosen(cells, objects, n)[i].position_y < scan_rows(),
    decreases n,
{
    if n > 0 {
        lemma_chosen_from_scan(cells, objects, n - 1);
        lemma_scan_bounds(n - 1);
        let prev = chosen(cells, objects, n - 1);
        let cur = chosen(cells, objects, n);
        assert forall|i: int| 0 <= i < cur.len() implies (#[trigger] cur[i]).position_x
            < scan_cols() && cur[i].position_y < scan_rows() by {
            if i < prev.len() {
                assert(cur[i] == prev[i]);
            }
        }
    }
}

proof fn lemma_listed_chosen(cells: Seq<Seq<u8>>, objects: Seq<u16>, n: int, k: int)
    requires
        0 <= n <= scan_len(),
        0 <= k < scan_len(),
    ensures
        listed(chosen(cells, objects, n), scan_x(k), scan_y(k)) <==> (k < n && picked(
            cells,
            objects,
            k,
        )),
    decreases n,
{
    lemma_scan_bounds(k);
    if n > 0 {
        lemma_listed_chosen(cells, objects, n - 1, k);
        lemma_scan_bounds(n - 1);
        let prev = chosen(cells, objects, n - 1);
        let cur = chosen(cells, objects, n);
        if picked(cells, objects, n - 1) {
            let p = scan_position(n - 1);
            if listed(prev, scan_x(k), scan_y(k)) {
                let j = choose|j: int|
                    0 <= j < prev.len() && prev[j].position_x == scan_x(k) && prev[j].position_y
                        == scan_y(k);
                assert(cur[j] == prev[j]);
            }
            if k == n - 1 {
                assert(cur[prev.len() as int] == p);
            }
            if listed(cur, scan_x(k), scan_y(k)) && !listed(prev, scan_x(k), scan_y(k)) {
                let j = choose|j: int|
                    0 <= j < cur.len() && cur[j].position_x == scan_x(k) && cur[j].position_y
                        == scan_y(k);
                if j < prev.len() {
                    assert(prev[j] == cur[j]);
                } else {
                    assert(cur[j] == p);
                    assert(k == n - 1);
                }
            }
        }
    } else {
        assert(chosen(cells, objects, 0).len() == 0);
    }
}

/// Number of scanned cells among the first `k` that were picked and hold `c`,
/// counted on the cells after the picked ones were emptied.
proof fn lemma_cleared_count(
    before: Seq<Seq<u8>>,
    after: Seq<Seq<u8>>,
    objects: Seq<u16>,
    c: u8,
    k: int,
)
    requires
        1 <= c <= 4,
        0 <= k <= scan_len(),
        forall|j: int|
            0 <= j < scan_len() ==> #[trigger] scanned(after, j) == if picked(before, objects, j) {
                0
            } else {
                scanned(before, j)
            },
    ensures
        count_value(after, c, k) + picked_count(before, objects, c, k) == count_value(
            before,
            c,
            k,
        ),
    decreases k,
{
    if k > 0 {
        lemma_cleared_count(before, after, objects, c, k - 1);
        assert(scanned(after, k - 1) == if picked(before, objects, k - 1) {
            0
        } else {
            scanned(before, k - 1)
        });
    }
}

/// Clearing the cells of an order takes out exactly the blocks it picked:
/// afterwards each colour's count in the scan has dropped by the number of
/// blocks of that colour the order asked for, or by all of them if fewer.
pub proof fn law_completed_order_takes_picked_blocks(
    before: Seq<Seq<u8>>,
    after: Seq<Seq<u8>>,
    objects: Seq<u16>,
    c: u8,
)
    requires
        1 <= c <= 4,
        grid_shaped(before),
        grid_shaped(after),
        forall|x: int, y: int|
            0 <= x < XMAX && 0 <= y < YMAX ==> #[trigger] after[x][y] == if listed(
                chosen(before, objects, scan_len()),
                x,
                y,
            ) {
                0
            } else {
                before[x][y]
            },
    ensures
        count_value(after, c, scan_len()) == count_value(before, c, scan_len()) - min_of(
            objects[c - 1] as int,
            count_value(before, c, scan_len()) as int,
        ),
{
    assert forall|j: int| 0 <= j < scan_len() implies #[trigger] scanned(after, j) == if picked(
        before,
        objects,
        j,
    ) {
        0
    } else {
        scanned(before, j)
    } by {
        lemma_scan_bounds(j);
        lemma_listed_chosen(before, objects, scan_len(), j);
        assert(after[scan_x(j)][scan_y(j)] == if listed(
            chosen(before, objects, scan_len()),
            scan_x(j),
            scan_y(j),
        ) {
            0
        } else {
            before[scan_x(j)][scan_y(j)]
        });
    }
    lemma_cleared_count(before, after, objects, c, scan_len());
    lemma_picked_count(before, objects, c, scan_len());
}

/// Every scanned cell counts towards exactly one of the four numbers of
/// `get_free`, which therefore add up to the number of scanned cells.
pub proof fn law_free_counts_cover_scan(cells: Seq<Seq<u8>>)
    requires
        free_counts_defined(cells),
    ensures
        count_value(cells, 0, scan_len()) + count_value(cells, 1, scan_len()) + count_value(
            cells,
            2,
            scan_len(),
        ) + count_value(cells, 3, scan_len()) == scan_len(),
{
    lemma_counts_cover(cells, scan_len());
}

proof fn lemma_counts_cover(cells: Seq<Seq<u8>>, k: int)
    requires
        free_counts_defined(cells),
        0 <= k <= scan_len(),
    ensures
        count_value(cells, 0, k) + count_value(cells, 1, k) + count_value(cells, 2, k)
            + count_value(cells, 3, k) == k,
    decreases k,
{
    if k > 0 {
        lemma_counts_cover(cells, k - 1);
        assert(scanned(cells, k - 1) < 4);
    }
}

/// The cell handed out for a new block is the first empty cell of the scan.
pub proof fn law_free_position_is_first_empty(cells: Seq<Seq<u8>>)
    ensures
        free_from(cells, 0) matches Some((x, y)) ==> exists|k: int|
            0 <= k < scan_len() && scanned(cells, k) == 0 && x == scan_x(k) && y == scan_y(k)
                && forall|j: int| 0 <= j < k ==> #[trigger] scanned(cells, j) != 0,
        free_from(cells, 0) is None ==> forall|j: int|
            0 <= j < scan_len() ==> #[trigger] scanned(cells, j) != 0,
{
    lemma_free_from(cells, 0);
}

proof fn lemma_free_from(cells: Seq<Seq<u8>>, k: int)
    requires
        0 <= k <= scan_len(),
    ensures
        free_from(cells, k) matches Some((x, y)) ==> exists|m: int|
            k <= m < scan_len() && scanned(cells, m) == 0 && x == scan_x(m) && y == scan_y(m)
                && forall|j: int| k <= j < m ==> #[trigger] scanned(cells, j) != 0,
        free_from(cells, k) is None ==> forall|j: int|
            k <= j < scan_len() ==> #[trigger] scanned(cells, j) != 0,
    decreases scan_len() - k,
{
    if k < scan_len() {
        lemma_scan_bounds(k);
        if scanned(cells, k) != 0 {
            lemma_free_from(cells, k + 1);
            if let Some((x, y)) = free_from(cells, k) {
                let m = choose|m: int|
                    k + 1 <= m < scan_len() && scanned(cells, m) == 0 && x == scan_x(m) && y
                        == scan_y(m) && forall|j: int|
                        k + 1 <= j < m ==> #[trigger] scanned(cells, j) != 0;
                assert(forall|j: int| k <= j < m ==> #[trigger] scanned(cells, j) != 0);
            }
        }
    }
}

/// A colour survives the trip through its number and through its name.
pub proof fn law_color_round_trip(c: Color)
    requires
        c != Color::Empty,
    ensures
        color_of_id(color_id(c)) == c,
        color_named(color_name(c)) == Some(c),
        1 <= color_id(c) <= 4,
{
    match c {
        Color::Red => {
            assert(color_name(c) =~= seq!['r', 'e', 'd']);
        },
        Color::Yellow => {
            assert(color_name(c) != seq!['r', 'e', 'd']);
        },
        Color::Green => {
            assert(color_name(c) != seq!['r', 'e', 'd']);
            assert(color_name(c) != seq!['y', 'e', 'l', 'l', 'o', 'w']);
        },
        _ => {
            assert(color_name(c) != seq!['r', 'e', 'd']);
            assert(color_name(c) != seq!['y', 'e', 'l', 'l', 'o', 'w']);
            assert(color_name(c) != seq!['g', 'r', 'e', 'e', 'n']);
        },
    }
}

/// Once a block is stored in the cell handed out for it, that cell is not
/// handed out again: the next free cell, if any, comes later in the scan
/// (its scan index `row * scan_cols() + column` is larger).
pub proof fn law_stored_cell_not_free(cells: Seq<Seq<u8>>, c: u8)
    requires
        grid_shaped(cells),
        c != 0,
        free_from(cells, 0) is Some,
    ensures
        ({
            let (x, y) = free_from(cells, 0)->0;
            let after = cells.update(x as int, cells[x as int].update(y as int, c));
            free_from(after, 0) matches Some((x2, y2)) ==> y2 * scan_cols() + x2 > y * scan_cols()
                + x
        }),
{
    let (x, y) = free_from(cells, 0)->0;
    let after = cells.update(x as int, cells[x as int].update(y as int, c));
    lemma_free_from(cells, 0);
    let k = choose|k: int|
        0 <= k < scan_len() && scanned(cells, k) == 0 && x == scan_x(k) && y == scan_y(k) && forall|
            j: int,
        | 0 <= j < k ==> #[trigger] scanned(cells, j) != 0;
    lemma_scan_bounds(k);
    lemma_free_from(after, 0);
    if let Some((x2, y2)) = free_from(after, 0) {
        let m = choose|m: int|
            0 <= m < scan_len() && scanned(after, m) == 0 && x2 == scan_x(m) && y2 == scan_y(m)
                && forall|j: int| 0 <= j < m ==> #[trigger] scanned(after, j) != 0;
        lemma_scan_bounds(m);
        assert(scanned(after, k) == c);
        if m < k {
            assert(scan_x(m) != x || scan_y(m) != y);
            assert(scanned(after, m) == scanned(cells, m));
            assert(scanned(cells, m) != 0);
        }
        assert(m > k);
    }
}

/// Every shelf has `XMAX` columns of `YMAX` cells.
pub proof fn lemma_grid_shaped(g: &Grid)
    ensures
        grid_shaped(g@),
{
}

/// `a` is a subsequence of `b`: `b` with some items left out.
pub open spec fn is_subsequence<T>(a: Seq<T>, b: Seq<T>) -> bool
    decreases b.len(),
{
    if a.len() == 0 {
        true
    } else if b.len() == 0 {
        false
    } else {
        (a.last() == b.last() && is_subsequence(a.drop_last(), b.drop_last())) || is_subsequence(
            a,
            b.drop_last(),
        )
    }
}

proof fn lemma_chosen_grows(cells: Seq<Seq<u8>>, o1: Seq<u16>, o2: Seq<u16>, k: int)
    requires
        o1.len() == 4,
        o2.len() == 4,
        forall|i: int| 0 <= i < 4 ==> o1[i] <= o2[i],
    ensures
        is_subsequence(chosen(cells, o1, k), chosen(cells, o2, k)),
    decreases k,
{
    if k > 0 {
        lemma_chosen_grows(cells, o1, o2, k - 1);
        let a = chosen(cells, o1, k - 1);
        let b = chosen(cells, o2, k - 1);
        let p = scan_position(k - 1);
        if picked(cells, o1, k - 1) {
            let c = scanned(cells, k - 1);
            assert(o1[c - 1] <= o2[c - 1]);
            assert(picked(cells, o2, k - 1));
            assert(a.push(p).drop_last() =~= a);
            assert(b.push(p).drop_last() =~= b);
        } else if picked(cells, o2, k - 1) {
            assert(b.push(p).drop_last() =~= b);
            if a.len() > 0 {
                assert(is_subsequence(a, b.push(p)));
            }
        }
    } else {
        assert(chosen(cells, o1, k).len() == 0);
    }
}

/// Asking for more never loses a picked cell: when every requested count of
/// `o2` is at least that of `o1`, the cells picked for `o1` are picked for
/// `o2` too, in the same order.
pub proof fn law_larger_request_keeps_picks(cells: Seq<Seq<u8>>, o1: Seq<u16>, o2: Seq<u16>)
    requires
        o1.len() == 4,
        o2.len() == 4,
        forall|i: int| 0 <= i < 4 ==> o1[i] <= o2[i],
    ensures
        is_subsequence(chosen(cells, o1, scan_len()), chosen(cells, o2, scan_len())),
{
    lemma_chosen_grows(cells, o1, o2, scan_len());
}

/// Once an order's cells are cleared, scanning again for the same request
/// picks none of them.
pub proof fn law_cleared_cells_not_picked_again(
    before: Seq<Seq<u8>>,
    after: Seq<Seq<u8>>,
    objects: Seq<u16>,
)
    requires
        grid_shaped(before),
        grid_shaped(after),
        forall|x: int, y: int|
            0 <= x < XMAX && 0 <= y < YMAX ==> #[trigger] after[x][y] == if listed(
                chosen(before, objects, scan_len()),
                x,
                y,
            ) {
                0
            } else {
                before[x][y]
            },
    ensures
        forall|i: int, j: int|
            0 <= i < chosen(after, objects, scan_len()).len() && 0 <= j < chosen(
                before,
                objects,
                scan_len(),
            ).len() ==> #[trigger] chosen(after, objects, scan_len())[i] != #[trigger] chosen(
                before,
                objects,
                scan_len(),
            )[j],
{
    let first = chosen(before, objects, scan_len());
    let second = chosen(after, objects, scan_len());
    lemma_chosen_from_scan(after, objects, scan_len());
    assert forall|i: int, j: int|
        0 <= i < second.len() && 0 <= j < first.len() implies #[trigger] second[i]
        != #[trigger] first[j] by {
        let p = second[i];
        let x = p.position_x as int;
        let y = p.position_y as int;
        let k = y * scan_cols() + x;
        lemma_scan_index(x, y);
        assert(k < scan_len()) by (nonlinear_arith)
            requires
                k == y * 3 + x,
                x < 3,
                y < 5,
        ;
        assert(listed(second, scan_x(k), scan_y(k)));
        lemma_listed_chosen(after, objects, scan_len(), k);
        assert(picked(after, objects, k));
        if second[i] == first[j] {
            assert(listed(first, x, y));
            assert(after[x][y] == 0);
        }
    }
}

impl Grid {
    /// The shelf that a stock reply of the order server describes.
    pub fn new(reply: &str) -> (g: Grid)
        requires
            internal::stock_from_reply(reply@) is Some,
        ensures
            internal::stock_from_reply(reply@) == Some(g@),
    {
        Grid { grid: internal::get_positions_from_db(reply) }
    }

    /// The shelf that a stock reply describes, or `None` where `new` would panic.
    pub fn try_new(reply: &str) -> (g: Option<Grid>)
        ensures
            match g {
                Some(g) => internal::stock_from_reply(reply@) == Some(g@),
                None => internal::stock_from_reply(reply@) is None,
            },
    {
        match internal::read_stock_reply(reply) {
            Some(_) => Some(Grid::new(reply)),
            None => None,
        }
    }

    /// Whether `get_free` is defined on this shelf.
    pub fn free_counts_defined(&self) -> (r: bool)
        ensures
            r == free_counts_defined(self@),
    {
        let mut y: usize = 0;
        while y < YMAX - 1
            invariant
                y <= YMAX - 1,
                forall|k: int| 0 <= k < y * scan_cols() ==> #[trigger] scanned(self@, k) < 4,
            decreases YMAX - 1 - y,
        {
            let mut x: usize = 0;
            while x < XMAX - 1
                invariant
                    x <= XMAX - 1,
                    y < YMAX - 1,
                    forall|k: int| 0 <= k < y * scan_cols() + x ==> #[trigger] scanned(self@, k) < 4,
                decreases XMAX - 1 - x,
            {
                let ghost k = y * scan_cols() + x;
                proof {
                    lemma_scan_index(x as int, y as int);
                    assert(k < scan_len()) by (nonlinear_arith)
                        requires
                            k == y * 3 + x,
                            x < 3,
                            y < 5,
                    ;
                }
                if self.grid[x][y] >= 4 {
                    assert(scanned(self@, k) >= 4);
                    return false;
                }
                x += 1;
            }
            assert((y + 1) * scan_cols() == y * scan_cols() + x) by (nonlinear_arith)
                requires
                    x == 3,
                    scan_cols() == 3,
            ;
            y += 1;
        }
        assert(y * scan_cols() == scan_len()) by (nonlinear_arith)
            requires
                y == 5,
                scan_cols() == 3,
                scan_len() == 15,
        ;
        true
    }

    /// The value stored at column `x`, row `y`.
    pub fn cell(&self, x: usize, y: usize) -> (r: u8)
        requires
            x < XMAX,
            y < YMAX,
        ensures
            r == self@[x as int][y as int],
    {
        self.grid[x][y]
    }

    /// How many scanned cells are empty, red, yellow and green, in this order.
    /// Each count is reported one colour later than the cells hold it: the
    /// first number counts empty cells, the second red ones, and so on.
    pub fn get_free(&self) -> (r: (u16, u16, u16, u16))
        requires
            free_counts_defined(self@),
        ensures
            r.0 == count_value(self@, 0, scan_len()),
            r.1 == count_value(self@, 1, scan_len()),
            r.2 == count_value(self@, 2, scan_len()),
            r.3 == count_value(self@, 3, scan_len()),
    {
        let mut red: u16 = 0;
        let mut yellow: u16 = 0;
        let mut green: u16 = 0;
        let mut blue: u16 = 0;
        let mut y: usize = 0;
        while y < YMAX - 1
            invariant
                y <= YMAX - 1,
                free_counts_defined(self@),
                red == count_value(self@, 0, y * scan_cols()),
                yellow == count_value(self@, 1, y * scan_cols()),
                green == count_value(self@, 2, y * scan_cols()),
                blue == count_value(self@, 3, y * scan_cols()),
                red + yellow + green + blue <= y * scan_cols(),
            decreases YMAX - 1 - y,
        {
            let mut x: usize = 0;
            while x < XMAX - 1
                invariant
                    x <= XMAX - 1,
                    y < YMAX - 1,
                    free_counts_defined(self@),
                    red == count_value(self@, 0, y * scan_cols() + x),
                    yellow == count_value(self@, 1, y * scan_cols() + x),
                    green == count_value(self@, 2, y * scan_cols() + x),
                    blue == count_value(self@, 3, y * scan_cols() + x),
                    red + yellow + green + blue <= y * scan_cols() + x,
                decreases XMAX - 1 - x,
            {
                let ghost k = y * scan_cols() + x;
                proof {
                    lemma_scan_index(x as int, y as int);
                    assert(k < scan_len()) by (nonlinear_arith)
                        requires
                            k == y * 3 + x,
                            x < 3,
                            y < 5,
                    ;
                    assert(scanned(self@, k) == self.grid[x as int][y as int]);
                    assert(scanned(self@, k) < 4);
                }
                let color: u8 = self.grid[x][y] + 1;
                match color {
                    0 => {},
                    1 => {
                        red += 1;
                    },
                    2 => {
                        yellow += 1;
                    },
                    3 => {
                        green += 1;
                    },
                    _ => {
                        blue += 1;
                    },
                }
                x += 1;
            }
            assert((y + 1) * scan_cols() == y * scan_cols() + x) by (nonlinear_arith)
                requires
                    x == 3,
                    scan_cols() == 3,
            ;
            y += 1;
        }
        (red, yellow, green, blue)
    }
    /// The positions to fetch for an order of `objects[c - 1]` blocks of each
    /// colour `c` (red, yellow, green, blue): scanning the grid row by row,
    /// each block is taken while its colour is still wanted.
    pub fn get_positions_for_order(&self, objects: [u16; 4]) -> (r: Vec<Position>)
        ensures
            r@ == chosen(self@, objects@, scan_len()),
    {
        let mut rem: [u16; 4] = objects;
        let mut positions: Vec<Position> = Vec::new();
        let mut y: usize = 0;
        while y < YMAX - 1
            invariant
                y <= YMAX - 1,
                positions@ == chosen(self@, objects@, y * scan_cols()),
                forall|c: int|
                    0 <= c < 4 ==> #[trigger] rem@[c] as int == still_wanted(
                        objects@[c],
                        count_value(self@, (c + 1) as u8, y * scan_cols()),
                    ),
            decreases YMAX - 1 - y,
        {
            let mut x: usize = 0;
            while x < XMAX - 1
                invariant
                    x <= XMAX - 1,
                    y < YMAX - 1,
                    positions@ == chosen(self@, objects@, y * scan_cols() + x),
                    forall|c: int|
                        0 <= c < 4 ==> #[trigger] rem@[c] as int == still_wanted(
                            objects@[c],
                            count_value(self@, (c + 1) as u8, y * scan_cols() + x),
                        ),
                decreases XMAX - 1 - x,
            {
                let ghost k = y * scan_cols() + x;
                proof {
                    lemma_scan_index(x as int, y as int);
                    assert(k < scan_len()) by (nonlinear_arith)
                        requires
                            k == y * 3 + x,
                            x < 3,
                            y < 5,
                    ;
                }
                if rem[0] == 0 && rem[1] == 0 && rem[2] == 0 && rem[3] == 0 {
                    proof {
                        assert forall|c: int| 1 <= c <= 4 implies count_value(
                            self@,
                            c as u8,
                            k,
                        ) >= #[trigger] objects@[c - 1] by {
                            assert(rem@[c - 1] == 0);
                        }
                        lemma_chosen_settled(self@, objects@, k, scan_len());
                    }
                    return positions;
                }
                let color: u8 = self.grid[x][y];
                assert(scanned(self@, k) == color);
                let ghost before = rem@;
                if 1 <= color && color <= 4 {
                    let i: usize = (color - 1) as usize;
                    if rem[i] > 0 {
                        rem[i] = rem[i] - 1;
                        positions.push(Position { position_x: x, position_y: y });
                    }
                }
                proof {
                    assert forall|c: int| 0 <= c < 4 implies #[trigger] rem@[c] as int
                        == still_wanted(objects@[c], count_value(self@, (c + 1) as u8, k + 1)) by {
                        assert(before[c] as int == still_wanted(
                            objects@[c],
                            count_value(self@, (c + 1) as u8, k),
                        ));
                    }
                }
                x += 1;
            }
            assert((y + 1) * scan_cols() == y * scan_cols() + x) by (nonlinear_arith)
                requires
                    x == 3,
                    scan_cols() == 3,
            ;
            y += 1;
        }
        positions
    }

    /// Empties every listed cell, the blocks of a completed order having been taken.
    pub fn order_update_position(&mut self, positions: Vec<Position>)
        requires
            forall|i: int|
                0 <= i < positions@.len() ==> (#[trigger] positions@[i]).position_x < XMAX
                    && positions@[i].position_y < YMAX,
        ensures
            grid_shaped(final(self)@),
            forall|x: int, y: int|
                0 <= x < XMAX && 0 <= y < YMAX ==> #[trigger] final(self)@[x][y] == if listed(
                    positions@,
                    x,
                    y,
                ) {
                    0
                } else {
                    old(self)@[x][y]
                },
    {
        let ghost start = self@;
        let mut i: usize = 0;
        while i < positions.len()
            invariant
                i <= positions@.len(),
                forall|j: int|
                    0 <= j < positions@.len() ==> (#[trigger] positions@[j]).position_x < XMAX
                        && positions@[j].position_y < YMAX,
                forall|x: int, y: int|
                    0 <= x < XMAX && 0 <= y < YMAX ==> #[trigger] self@[x][y] == if listed(
                        positions@.take(i as int),
                        x,
                        y,
                    ) {
                        0
                    } else {
                        start[x][y]
                    },
            decreases positions@.len() - i,
        {
            let pos: Position = positions[i];
            let ghost prev = self@;
            self.grid[pos.position_x][pos.position_y] = 0;
            proof {
                assert(self@ =~= prev.update(
                    pos.position_x as int,
                    prev[pos.position_x as int].update(pos.position_y as int, 0),
                ));
                assert forall|x: int, y: int|
                    0 <= x < XMAX && 0 <= y < YMAX implies #[trigger] self@[x][y] == if listed(
                        positions@.take(i + 1),
                        x,
                        y,
                    ) {
                        0
                    } else {
                        start[x][y]
                    } by {
                    let t = positions@.take(i as int);
                    let t1 = positions@.take(i + 1);
                    if listed(t, x, y) {
                        let j = choose|j: int|
                            0 <= j < t.len() && t[j].position_x == x && t[j].position_y == y;
                        assert(t1[j] == t[j]);
                    }
                    if listed(t1, x, y) && !listed(t, x, y) {
                        let j = choose|j: int|
                            0 <= j < t1.len() && t1[j].position_x == x && t1[j].position_y == y;
                        if j < i {
                            assert(t[j] == t1[j]);
                        }
                    }
                    if x == pos.position_x && y == pos.position_y {
                        assert(t1[i as int] == pos);
                    } else {
                        assert(self@[x][y] == prev[x][y]);
                    }
                }
            }
            i += 1;
        }
        assert(positions@.take(positions@.len() as int) =~= positions@);
    }

    /// Stores a block of `color` at column `x`, row `y`.
    pub fn sort_insert_lager_position(&mut self, x: u8, y: u8, color: Color)
        requires
            x < XMAX,
            y < YMAX,
        ensures
            final(self)@ == old(self)@.update(
                x as int,
                old(self)@[x as int].update(y as int, color_id(color)),
            ),
    {
        self.grid[x as usize][y as usize] = color.to_u8();
        assert(self@ =~= old(self)@.update(
            x as int,
            old(self)@[x as int].update(y as int, color_id(color)),
        ));
    }

    /// The first empty cell of the scan.
    pub fn get_free_position(&self) -> (r: Option<(usize, usize)>)
        ensures
            r == free_from(self@, 0),
    {
        let mut y: usize = 0;
        while y < YMAX - 1
            invariant
                y <= YMAX - 1,
                free_from(self@, 0) == free_from(self@, y * scan_cols()),
            decreases YMAX - 1 - y,
        {
            let mut x: usize = 0;
            while x < XMAX - 1
                invariant
                    x <= XMAX - 1,
                    y < YMAX - 1,
                    free_from(self@, 0) == free_from(self@, y * scan_cols() + x),
                decreases XMAX - 1 - x,
            {
                let ghost k = y * scan_cols() + x;
                proof {
                    lemma_scan_index(x as int, y as int);
                    assert(k < scan_len()) by (nonlinear_arith)
                        requires
                            k == y * 3 + x,
                            x < 3,
                            y < 5,
                    ;
                }
                if self.grid[x][y] == 0 {
                    return Some((x, y));
                }
                x += 1;
            }
            assert((y + 1) * scan_cols() == y * scan_cols() + x) by (nonlinear_arith)
                requires
                    x == 3,
                    scan_cols() == 3,
            ;
            y += 1;
        }
        None
    }
}


/// Marks a line of an order that carries its id.
pub open spec fn key_id() -> Seq<char> {
    seq!['"', 'i', 'd', '"']
}

/// Marks a line of an order that carries a product.
pub open spec fn key_product() -> Seq<char> {
    seq!['"', 'p', 'r', 'o', 'd', 'u', 'c', 't', '_', 't', 'y', 'p', 'e', '"']
}

/// The word after a product's colour.
pub open spec fn word_block() -> Seq<char> {
    seq!['b', 'l', 'o', 'c', 'k']
}

/// What precedes a product's colour: `{"product_type": "`.
pub open spec fn colour_prefix() -> Seq<char> {
    seq!['{', '"', 'p', 'r', 'o', 'd', 'u', 'c', 't', '_', 't', 'y', 'p', 'e', '"', ':', ' ', '"']
}

/// The key of a product's amount: `"total_product_amount":`.
pub open spec fn key_total() -> Seq<char> {
    seq![
        '"',
        't',
        'o',
        't',
        'a',
        'l',
        '_',
        'p',
        'r',
        'o',
        'd',
        'u',
        'c',
        't',
        '_',
        'a',
        'm',
        'o',
        'u',
        'n',
        't',
        '"',
        ':',
    ]
}

/// What the amount is read after: the key and one space.
pub open spec fn amount_skip() -> Seq<char> {
    key_total().push(' ')
}

/// The id that a line carrying `"id"` gives: its text from byte 6 up to but
/// not including its last byte, trimmed, read as a `u16`.
pub open spec fn line_id(line: Seq<char>) -> Option<int> {
    match byte_slice(line, 6, byte_len(line) - 1) {
        Some(t) => parse_unsigned(trim(t), 0xffff),
        None => None,
    }
}

/// The colour and amount that a product line gives: the colour is the
/// lower-cased text between the prefix and the byte before `block`; the
/// amount the trimmed text after `"total_product_amount": ` up to the first `}`.
pub open spec fn line_product(line: Seq<char>) -> Option<(Color, int)> {
    match find_byte(line, word_block()) {
        Some(b) => if b == 0 {
            None
        } else {
            match byte_slice(line, byte_len(colour_prefix()), b - 1) {
                Some(name) => match color_named(lowercase_of(name)) {
                    Some(color) => match (find_byte(line, key_total()), find_byte(line, seq!['}'])) {
                        (Some(ts), Some(te)) => match byte_slice(
                            line,
                            ts + byte_len(amount_skip()),
                            te,
                        ) {
                            Some(a) => match parse_unsigned(trim(a), 0xffff) {
                                Some(amount) => Some((color, amount)),
                                None => None,
                            },
                            None => None,
                        },
                        _ => None,
                    },
                    None => None,
                },
                None => None,
            }
        },
        None => None,
    }
}

/// What one line of an order does to the running `(totals, id)`: a line
/// carrying `"id"` sets the id, a line carrying `"product_type"` adds its
/// amount to its colour's total. `None` where the line cannot be read (an
/// unreadable id, colour or amount, or a total beyond `u16`).
pub open spec fn order_line(st: (Seq<u16>, u16), line: Seq<char>) -> Option<(Seq<u16>, u16)> {
    let id = if contains_seq(line, key_id()) {
        line_id(line)
    } else {
        Some(st.1 as int)
    };
    match id {
        Some(id) => if contains_seq(line, key_product()) {
            match line_product(line) {
                Some((color, amount)) => {
                    let i = color_id(color) - 1;
                    if st.0[i] + amount > 0xffff {
                        None
                    } else {
                        Some((st.0.update(i, (st.0[i] + amount) as u16), id as u16))
                    }
                },
                None => None,
            }
        } else {
            Some((st.0, id as u16))
        },
        None => None,
    }
}

/// The colours in the order of an order's totals: red, yellow, green, blue.
pub open spec fn total_colours() -> Seq<Color> {
    seq![Color::Red, Color::Yellow, Color::Green, Color::Blue]
}

proof fn lemma_line_product_range(line: Seq<char>)
    ensures
        line_product(line) matches Some((c, a)) ==> 0 <= a <= 0xffff && c != Color::Empty,
{
    if let Some((c, a)) = line_product(line) {
        let b = find_byte(line, word_block())->0;
        let name = byte_slice(line, byte_len(colour_prefix()), b - 1)->0;
        assert(color_named(lowercase_of(name)) == Some(c));
        let ts = find_byte(line, key_total())->0;
        let te = find_byte(line, seq!['}'])->0;
        let t = byte_slice(line, ts + byte_len(amount_skip()), te)->0;
        crate::text::lemma_parse_unsigned_range(trim(t), 0xffff);
    }
}

/// A product line adds its amount to the total of its own colour and leaves
/// the other three totals alone: the `j`-th total (colours in the order red,
/// yellow, green, blue) grows by the line's amount exactly when the line
/// names the `j`-th colour. A line without a product keeps every total.
pub proof fn law_order_line_adds_to_its_colour(st: (Seq<u16>, u16), line: Seq<char>)
    requires
        st.0.len() == 4,
        order_line(st, line) is Some,
    ensures
        ({
            let r = order_line(st, line)->0;
            &&& r.0.len() == 4
            &&& contains_seq(line, key_product()) ==> (line_product(line) matches Some((c, a))
                && forall|j: int|
                0 <= j < 4 ==> #[trigger] r.0[j] as int == st.0[j] + if total_colours()[j] == c {
                    a
                } else {
                    0
                })
            &&& !contains_seq(line, key_product()) ==> r.0 == st.0
        }),
{
    let r = order_line(st, line)->0;
    if contains_seq(line, key_product()) {
        let (c, a) = line_product(line)->0;
        let i = color_id(c) - 1;
        let id = if contains_seq(line, key_id()) {
            line_id(line)
        } else {
            Some(st.1 as int)
        };
        assert(id is Some);
        lemma_line_product_range(line);
        assert(st.0[i] + a <= 0xffff);
        assert(r.0 == st.0.update(i, (st.0[i] + a) as u16));
        assert forall|j: int| 0 <= j < 4 implies #[trigger] r.0[j] as int == st.0[j] + if total_colours()[j]
            == c {
            a
        } else {
            0
        } by {
            assert(total_colours()[j] == c <==> j == i);
            if j == i {
                assert(r.0[j] == (st.0[i] + a) as u16);
            } else {
                assert(r.0[j] == st.0[j]);
            }
        }
    }
}

/// Applying the lines `ls` of an order in turn.
pub open spec fn order_lines(st: (Seq<u16>, u16), ls: Seq<Seq<char>>) -> Option<(Seq<u16>, u16)>
    decreases ls.len(),
{
    if ls.len() == 0 {
        Some(st)
    } else {
        match order_lines(st, ls.drop_last()) {
            Some(s) => order_line(s, ls.last()),
            None => None,
        }
    }
}

/// The totals per colour (red, yellow, green, blue) and the id of an order
/// text; `None` where the text cannot be read.
pub open spec fn order_from_reply(reply: Seq<char>) -> Option<(Seq<u16>, u16)> {
    order_lines((seq![0u16, 0u16, 0u16, 0u16], 0), lines_of(reply))
}

/// Reads the id of a line carrying `"id"`.
fn read_line_id(line: &Vec<char>) -> (r: Option<u16>)
    ensures
        match r {
            Some(v) => line_id(line@) == Some(v as int),
            None => line_id(line@) is None,
        },
{
    proof {
        assert(line@.take(0) =~= Seq::<char>::empty());
        assert(line@.take(line@.len() as int) =~= line@);
        assert(byte_len(Seq::<char>::empty()) == 0);
    }
    let start: Option<usize> = boundary_after(line, 0, 6);
    let end: Option<usize> = boundary_before(line, line.len());
    match (start, end) {
        (Some(a), Some(b)) => {
            if a <= b {
                let t: Vec<char> = copy_range(line, a, b);
                let trimmed: Vec<char> = trim_chars(&t);
                match parse_decimal(&trimmed, 0xffff) {
                    Some(v) => Some(v as u16),
                    None => None,
                }
            } else {
                None
            }
        },
        _ => None,
    }
}

proof fn lemma_literal_byte_lens()
    ensures
        byte_len(colour_prefix()) == 18,
        byte_len(amount_skip()) == 24,
        byte_len(key_total()) == 23,
{
    crate::text::lemma_ascii_byte_len(colour_prefix());
    crate::text::lemma_ascii_byte_len(amount_skip());
    crate::text::lemma_ascii_byte_len(key_total());
}

/// Reads the colour and amount of a product line.
pub fn read_line_product(line: &Vec<char>) -> (r: Option<(Color, u16)>)
    ensures
        match r {
            Some(p) => line_product(line@) == Some((p.0, p.1 as int)),
            None => line_product(line@) is None,
        },
{
    proof {
        lemma_literal_byte_lens();
        assert(line@.take(0) =~= Seq::<char>::empty());
        assert(byte_len(Seq::<char>::empty()) == 0);
    }
    let block: Vec<char> = vec!['b', 'l', 'o', 'c', 'k'];
    let total: Vec<char> = vec![
        '"',
        't',
        'o',
        't',
        'a',
        'l',
        '_',
        'p',
        'r',
        'o',
        'd',
        'u',
        'c',
        't',
        '_',
        'a',
        'm',
        'o',
        'u',
        'n',
        't',
        '"',
        ':',
    ];
    let brace: Vec<char> = vec!['}'];
    assert(block@ == word_block());
    assert(total@ == key_total());
    assert(brace@ == seq!['}']);
    let kb: usize = match find(line, &block) {
        Some(k) => k,
        None => {
            return None;
        },
    };
    proof {
        lemma_find_in_bounds(line@, block@);
        lemma_nonempty_prefix_bytes(line@, kb as int);
    }
    let name_start: usize = match boundary_after(line, 0, 18) {
        Some(a) => a,
        None => {
            return None;
        },
    };
    let name_end: usize = match boundary_before(line, kb) {
        Some(b) => b,
        None => {
            return None;
        },
    };
    if name_start > name_end {
        return None;
    }
    let name: Vec<char> = copy_range(line, name_start, name_end);
    let lower: Vec<char> = to_lowercase(&name);
    let color: Color = match Color::from_chars(&lower) {
        Some(c) => c,
        None => {
            return None;
        },
    };
    let ks: usize = match find(line, &total) {
        Some(k) => k,
        None => {
            return None;
        },
    };
    let ke: usize = match find(line, &brace) {
        Some(k) => k,
        None => {
            return None;
        },
    };
    proof {
        lemma_find_in_bounds(line@, total@);
        lemma_find_in_bounds(line@, brace@);
    }
    let amount_start: usize = match boundary_after(line, ks, 24) {
        Some(a) => a,
        None => {
            return None;
        },
    };
    let amount_end: usize = match boundary_after(line, ke, 0) {
        Some(b) => b,
        None => {
            return None;
        },
    };
    if amount_start > amount_end {
        return None;
    }
    let text: Vec<char> = copy_range(line, amount_start, amount_end);
    let trimmed: Vec<char> = trim_chars(&text);
    match parse_decimal(&trimmed, 0xffff) {
        Some(v) => Some((color, v as u16)),
        None => None,
    }
}

/// A found occurrence lies within the text.
proof fn lemma_find_in_bounds(s: Seq<char>, p: Seq<char>)
    ensures
        crate::text::find_seq(s, p) matches Some(k) ==> 0 <= k && k + p.len() <= s.len(),
{
    crate::text::lemma_find_from(s, p, 0);
}

/// A non-empty prefix takes at least one byte.
proof fn lemma_nonempty_prefix_bytes(s: Seq<char>, k: int)
    requires
        0 <= k <= s.len(),
    ensures
        k > 0 ==> byte_len(s.take(k)) > 0,
        byte_len(s.take(k)) >= 0,
    decreases k,
{
    if k > 0 {
        assert(s.take(k).drop_first() =~= s.drop_first().take(k - 1));
        lemma_nonempty_prefix_bytes(s.drop_first(), k - 1);
    } else {
        assert(s.take(0) =~= Seq::<char>::empty());
    }
}


/// Applies one line of an order to the running totals and id; `None`
/// exactly where the line cannot be read.
pub fn apply_order_line(totals: [u16; 4], id: u16, line: &Vec<char>) -> (r: Option<([u16; 4], u16)>)
    ensures
        match r {
            Some(t) => order_line((totals@, id), line@) == Some((t.0@, t.1)),
            None => order_line((totals@, id), line@) is None,
        },
{
    let key_i: Vec<char> = vec!['"', 'i', 'd', '"'];
    let key_p: Vec<char> = vec!['"', 'p', 'r', 'o', 'd', 'u', 'c', 't', '_', 't', 'y', 'p', 'e', '"'];
    assert(key_i@ == key_id());
    assert(key_p@ == key_product());
    let mut order_id: u16 = id;
    if contains(line, &key_i) {
        match read_line_id(line) {
            Some(v) => {
                order_id = v;
            },
            None => {
                return None;
            },
        }
    }
    let mut new_totals: [u16; 4] = totals;
    if contains(line, &key_p) {
        match read_line_product(line) {
            Some((color, amount)) => {
                let i: usize = (color.to_u8() - 1) as usize;
                if totals[i] as u32 + amount as u32 > 0xffff {
                    return None;
                }
                new_totals[i] = totals[i] + amount;
                assert(new_totals@ =~= totals@.update(i as int, (totals@[i as int] + amount) as u16));
            },
            None => {
                return None;
            },
        }
    }
    Some((new_totals, order_id))
}

proof fn lemma_order_lines_fail_stays(st: (Seq<u16>, u16), ls: Seq<Seq<char>>, j: int)
    requires
        0 <= j <= ls.len(),
        order_lines(st, ls.take(j)) is None,
    ensures
        order_lines(st, ls) is None,
    decreases ls.len() - j,
{
    if j < ls.len() {
        assert(ls.take(j + 1).drop_last() =~= ls.take(j));
        lemma_order_lines_fail_stays(st, ls, j + 1);
    } else {
        assert(ls.take(j) =~= ls);
    }
}

/// Reads an order text: the totals per colour (red, yellow, green, blue)
/// and the order id, or `None` exactly where the text cannot be read.
pub fn read_order(order: &str) -> (r: Option<([u16; 4], u16)>)
    ensures
        match r {
            Some(t) => order_from_reply(order@) == Some((t.0@, t.1)),
            None => order_from_reply(order@) is None,
        },
{
    let text: Vec<char> = chars_of(order);
    let ls: Vec<Vec<char>> = lines(&text);
    let ghost all = lines_of(order@);
    let ghost init = (seq![0u16, 0u16, 0u16, 0u16], 0u16);
    let mut totals: [u16; 4] = [0, 0, 0, 0];
    let mut id: u16 = 0;
    assert(totals@ =~= seq![0u16, 0u16, 0u16, 0u16]);
    assert(all.take(0) =~= Seq::<Seq<char>>::empty());
    let mut i: usize = 0;
    while i < ls.len()
        invariant
            i <= ls.len(),
            views(ls@) == all,
            all == lines_of(order@),
            init == (seq![0u16, 0u16, 0u16, 0u16], 0u16),
            order_lines(init, all.take(i as int)) == Some((totals@, id)),
        decreases ls.len() - i,
    {
        assert(all.take(i + 1).drop_last() =~= all.take(i as int));
        assert(all.take(i + 1).last() == ls@[i as int]@);
        match apply_order_line(totals, id, &ls[i]) {
            Some(t) => {
                totals = t.0;
                id = t.1;
            },
            None => {
                proof {
                    lemma_order_lines_fail_stays(init, all, i + 1);
                }
                return None;
            },
        }
        i += 1;
    }
    assert(all.take(i as int) =~= all);
    Some((totals, id))
}

/// What a poll of the order server yields: nothing when the reply says no
/// order waits, otherwise the totals and id of the order it holds.
pub open spec fn order_update(reply: Seq<char>) -> Option<(Seq<u16>, u16)> {
    if contains_seq(reply, internal::no_order_marker()) {
        None
    } else {
        order_from_reply(reply)
    }
}

/// The new order that a poll reply holds: `None` when the reply says that no
/// order waits, otherwise the totals per colour and the id of the order.
pub fn read_order_updates(reply: String) -> (r: Option<([u16; 4], u16)>)
    requires
        contains_seq(reply@, internal::no_order_marker()) || order_from_reply(reply@) is Some,
    ensures
        match r {
            Some(t) => order_update(reply@) == Some((t.0@, t.1)),
            None => order_update(reply@) is None,
        },
{
    let order_json: String = match internal::get_order_from_db(reply) {
        Some(order) => order,
        None => {
            return None;
        },
    };
    match read_order(order_json.as_str()) {
        Some(t) => Some(t),
        None => vstd::pervasive::unreached(),
    }
}

/// `read_order_updates` where the reply is readable: `None` where it would
/// panic, otherwise `Some` of what it returns.
pub fn try_read_order_updates(reply: String) -> (r: Option<Option<([u16; 4], u16)>>)
    ensures
        match r {
            Some(Some(t)) => order_update(reply@) == Some((t.0@, t.1)),
            Some(None) => contains_seq(reply@, internal::no_order_marker()),
            None => !contains_seq(reply@, internal::no_order_marker()) && order_from_reply(reply@) is None,
        },
{
    let readable: bool = match internal::get_order_from_db(reply.clone()) {
        Some(order) => read_order(order.as_str()).is_some(),
        None => true,
    };
    if readable {
        Some(read_order_updates(reply))
    } else {
        None
    }
}

} // verus!
