//! Replies of the order server: the stock listing and the order poll.
use vstd::prelude::*;

use super::{cells_of, XMAX, YMAX};
use crate::text::{
    all_ascii, all_digits, digits_value, contains, contains_seq, lines, lines_of, lowercase_of, to_lowercase, chars_of, parse_decimal, parse_unsigned, split_chars,
    split_on, value_after, value_after_key, views,
};

verus! {

/// Key of the column attribute of a stock line (lower case).
pub open spec fn key_position_x() -> Seq<char> {
    seq![' ', '"', ' ', 'p', 'o', 's', 'i', 't', 'i', 'o', 'n', '_', 'x', '"', ':', ' ']
}

/// Key of the row attribute of a stock line (lower case).
pub open spec fn key_position_y() -> Seq<char> {
    seq![' ', '"', ' ', 'p', 'o', 's', 'i', 't', 'i', 'o', 'n', '_', 'y', '"', ':', ' ']
}

/// Key of the empty-flag attribute of a stock line.
pub open spec fn key_empty() -> Seq<char> {
    seq![' ', '"', 'e', 'm', 'p', 't', 'y', '"', ':', ' ']
}

/// Key of the product-type attribute of a stock line.
pub open spec fn key_product_type() -> Seq<char> {
    seq![
        ' ',
        '"',
        'p',
        'r',
        'o',
        'd',
        'u',
        'c',
        't',
        '_',
        't',
        'y',
        'p',
        'e',
        '_',
        'i',
        'd',
        '"',
        ':',
        ' ',
    ]
}

/// A shelf of empty cells.
pub open spec fn empty_cells() -> Seq<Seq<u8>> {
    Seq::new(XMAX as nat, |x: int| Seq::new(YMAX as nat, |y: int| 0u8))
}

/// The number after `key` in an attribute, parsed as an unsigned integer no
/// larger than `max`; `None` where the slice or the parse would panic.
pub open spec fn read_number(attr: Seq<char>, key: Seq<char>, max: int) -> Option<int> {
    match value_after(attr, key) {
        Some(v) => parse_unsigned(v, max),
        None => None,
    }
}

/// What reading one attribute of a stock line does to the line's state
/// `(x, y, empty, product type, cells)`; `None` where it cannot be read.
pub open spec fn attribute_step(
    st: (u16, u16, Seq<char>, u8, Seq<Seq<u8>>),
    attr: Seq<char>,
) -> Option<(u16, u16, Seq<char>, u8, Seq<Seq<u8>>)> {
    let x = if contains_seq(attr, key_position_x()) {
        read_number(attr, key_position_x(), 0xffff)
    } else {
        Some(st.0 as int)
    };
    let y = if contains_seq(attr, key_position_y()) {
        read_number(attr, key_position_y(), 0xffff)
    } else {
        Some(st.1 as int)
    };
    let e = if contains_seq(attr, key_empty()) {
        value_after(attr, key_empty())
    } else {
        Some(st.2)
    };
    let p = if contains_seq(attr, key_product_type()) {
        read_number(attr, key_product_type(), 0xff)
    } else {
        Some(st.3 as int)
    };
    match (x, y, e, p) {
        (Some(x), Some(y), Some(e), Some(p)) => {
            if attr.len() == 0 || contains_seq(attr, seq![']']) {
                if x < XMAX && y < YMAX {
                    Some(
                        (
                            x as u16,
                            y as u16,
                            e,
                            p as u8,
                            st.4.update(x, st.4[x].update(y, p as u8)),
                        ),
                    )
                } else {
                    None
                }
            } else {
                Some((x as u16, y as u16, e, p as u8, st.4))
            }
        },
        _ => None,
    }
}

/// Reading the attributes `attrs` in order.
pub open spec fn attributes_step(
    st: (u16, u16, Seq<char>, u8, Seq<Seq<u8>>),
    attrs: Seq<Seq<char>>,
) -> Option<(u16, u16, Seq<char>, u8, Seq<Seq<u8>>)>
    decreases attrs.len(),
{
    if attrs.len() == 0 {
        Some(st)
    } else {
        match attributes_step(st, attrs.drop_last()) {
            Some(s) => attribute_step(s, attrs.last()),
            None => None,
        }
    }
}

/// What one lower-cased stock line does to the cells: its comma-separated
/// attributes are read in order, each cell write happening at an empty
/// attribute or one holding `]`; an empty flag holding `true` writes once more.
/// `None` where it cannot be read.
pub open spec fn position_line(cells: Seq<Seq<u8>>, lower: Seq<char>) -> Option<Seq<Seq<u8>>> {
    match attributes_step((0, 0, seq!['0'], 0, cells), split_on(lower, ',')) {
        Some(st) => if contains_seq(st.2, seq!['t', 'r', 'u', 'e']) {
            if st.0 < XMAX && st.1 < YMAX {
                Some(st.4.update(st.0 as int, st.4[st.0 as int].update(st.1 as int, st.3)))
            } else {
                None
            }
        } else {
            Some(st.4)
        },
        None => None,
    }
}

/// The lines of the stock reply after its three header lines.
pub open spec fn stock_lines(reply: Seq<char>) -> Seq<Seq<char>> {
    let ls = lines_of(reply);
    if ls.len() <= 3 {
        seq![]
    } else {
        ls.skip(3)
    }
}

/// Applying the lines `ls`, each lower-cased first.
pub open spec fn apply_lines(cells: Seq<Seq<u8>>, ls: Seq<Seq<char>>) -> Option<Seq<Seq<u8>>>
    decreases ls.len(),
{
    if ls.len() == 0 {
        Some(cells)
    } else {
        match apply_lines(cells, ls.drop_last()) {
            Some(c) => position_line(c, lowercase_of(ls.last())),
            None => None,
        }
    }
}

/// The shelf that a stock reply describes; `None` where it cannot be read.
pub open spec fn stock_from_reply(reply: Seq<char>) -> Option<Seq<Seq<u8>>> {
    apply_lines(empty_cells(), stock_lines(reply))
}

proof fn lemma_keys_ascii()
    ensures
        all_ascii(key_position_x()),
        all_ascii(key_position_y()),
        all_ascii(key_empty()),
        all_ascii(key_product_type()),
{
    assert(all_ascii(key_position_x()));
    assert(all_ascii(key_position_y()));
    assert(all_ascii(key_empty()));
    assert(all_ascii(key_product_type()));
}

proof fn lemma_attributes_fail_stays(
    st: (u16, u16, Seq<char>, u8, Seq<Seq<u8>>),
    attrs: Seq<Seq<char>>,
    j: int,
)
    requires
        0 <= j <= attrs.len(),
        attributes_step(st, attrs.take(j)) is None,
    ensures
        attributes_step(st, attrs) is None,
    decreases attrs.len() - j,
{
    if j < attrs.len() {
        assert(attrs.take(j + 1).drop_last() =~= attrs.take(j));
        lemma_attributes_fail_stays(st, attrs, j + 1);
    } else {
        assert(attrs.take(j) =~= attrs);
    }
}

/// The number after `key` in `attr`.
fn read_number_exec(attr: &Vec<char>, key: &Vec<char>, max: u32) -> (r: Option<u32>)
    requires
        all_ascii(key@),
    ensures
        match r {
            Some(v) => read_number(attr@, key@, max as int) == Some(v as int),
            None => read_number(attr@, key@, max as int) is None,
        },
{
    match value_after_key(attr, key) {
        Some(v) => parse_decimal(&v, max),
        None => None,
    }
}

/// A number attribute: the number after `key` when `attr` contains `key`,
/// `current` otherwise.
fn number_attribute(attr: &Vec<char>, key: &Vec<char>, max: u32, current: u32) -> (r: Option<u32>)
    requires
        all_ascii(key@),
    ensures
        match r {
            Some(v) => (if contains_seq(attr@, key@) {
                read_number(attr@, key@, max as int)
            } else {
                Some(current as int)
            }) == Some(v as int),
            None => (if contains_seq(attr@, key@) {
                read_number(attr@, key@, max as int)
            } else {
                Some(current as int)
            }) is None,
        },
{
    if contains(attr, key) {
        read_number_exec(attr, key, max)
    } else {
        Some(current)
    }
}

/// Reads one attribute of a stock line: `attribute_step` on the state
/// `(x, y, empty, product, grid)`.
pub fn read_attribute(
    x: u16,
    y: u16,
    empty: Vec<char>,
    product: u8,
    grid: [[u8; YMAX]; XMAX],
    attr: &Vec<char>,
) -> (r: Option<(u16, u16, Vec<char>, u8, [[u8; YMAX]; XMAX])>)
    ensures
        match r {
            Some(t) => attribute_step((x, y, empty@, product, cells_of(grid)), attr@) == Some(
                (t.0, t.1, t.2@, t.3, cells_of(t.4)),
            ),
            None => attribute_step((x, y, empty@, product, cells_of(grid)), attr@) is None,
        },
{
    proof {
        lemma_keys_ascii();
    }
    let key_x: Vec<char> = vec![' ', '"', ' ', 'p', 'o', 's', 'i', 't', 'i', 'o', 'n', '_', 'x', '"', ':', ' '];
    let key_y: Vec<char> = vec![' ', '"', ' ', 'p', 'o', 's', 'i', 't', 'i', 'o', 'n', '_', 'y', '"', ':', ' '];
    let key_e: Vec<char> = vec![' ', '"', 'e', 'm', 'p', 't', 'y', '"', ':', ' '];
    let key_p: Vec<char> = vec![
        ' ',
        '"',
        'p',
        'r',
        'o',
        'd',
        'u',
        'c',
        't',
        '_',
        't',
        'y',
        'p',
        'e',
        '_',
        'i',
        'd',
        '"',
        ':',
        ' ',
    ];
    let close: Vec<char> = vec![']'];
    assert(key_x@ == key_position_x());
    assert(key_y@ == key_position_y());
    assert(key_e@ == key_empty());
    assert(key_p@ == key_product_type());
    assert(close@ == seq![']']);
    let new_x: u32 = match number_attribute(attr, &key_x, 0xffff, x as u32) {
        Some(v) => v,
        None => {
            return None;
        },
    };
    let new_y: u32 = match number_attribute(attr, &key_y, 0xffff, y as u32) {
        Some(v) => v,
        None => {
            return None;
        },
    };
    let new_empty: Vec<char> = if contains(attr, &key_e) {
        match value_after_key(attr, &key_e) {
            Some(v) => v,
            None => {
                return None;
            },
        }
    } else {
        empty
    };
    let new_product: u32 = match number_attribute(attr, &key_p, 0xff, product as u32) {
        Some(v) => v,
        None => {
            return None;
        },
    };
    let mut cells: [[u8; YMAX]; XMAX] = grid;
    if attr.len() == 0 || contains(attr, &close) {
        if (new_x as usize) < XMAX && (new_y as usize) < YMAX {
            cells[new_x as usize][new_y as usize] = new_product as u8;
            assert(cells_of(cells) =~= cells_of(grid).update(
                new_x as int,
                cells_of(grid)[new_x as int].update(new_y as int, new_product as u8),
            ));
        } else {
            return None;
        }
    }
    Some((new_x as u16, new_y as u16, new_empty, new_product as u8, cells))
}

/// Applies one lower-cased stock line to the cells; `None` exactly where the
/// line cannot be read.
pub fn apply_position_line(cells: [[u8; YMAX]; XMAX], lower: &Vec<char>) -> (r: Option<
    [[u8; YMAX]; XMAX],
>)
    ensures
        match r {
            Some(c) => position_line(cells_of(cells), lower@) == Some(cells_of(c)),
            None => position_line(cells_of(cells), lower@) is None,
        },
{
    let truth: Vec<char> = vec!['t', 'r', 'u', 'e'];
    assert(truth@ == seq!['t', 'r', 'u', 'e']);
    let attrs: Vec<Vec<char>> = split_chars(lower, ',');
    let ghost parts = split_on(lower@, ',');
    let ghost init = (0u16, 0u16, seq!['0'], 0u8, cells_of(cells));
    let mut x: u16 = 0;
    let mut y: u16 = 0;
    let mut empty: Vec<char> = vec!['0'];
    let mut product: u8 = 0;
    let mut grid: [[u8; YMAX]; XMAX] = cells;
    let mut i: usize = 0;
    assert(parts.take(0) =~= Seq::<Seq<char>>::empty());
    while i < attrs.len()
        invariant
            i <= attrs.len(),
            views(attrs@) == parts,
            parts == split_on(lower@, ','),
            init == (0u16, 0u16, seq!['0'], 0u8, cells_of(cells)),
            attributes_step(init, parts.take(i as int)) == Some(
                (x, y, empty@, product, cells_of(grid)),
            ),
        decreases attrs.len() - i,
    {
        let attr: &Vec<char> = &attrs[i];
        assert(parts.take(i + 1).drop_last() =~= parts.take(i as int));
        assert(parts.take(i + 1).last() == attr@);
        match read_attribute(x, y, empty, product, grid, attr) {
            Some(t) => {
                x = t.0;
                y = t.1;
                empty = t.2;
                product = t.3;
                grid = t.4;
            },
            None => {
                proof {
                    lemma_attributes_fail_stays(init, parts, i + 1);
                }
                return None;
            },
        }
        i += 1;
    }
    assert(parts.take(attrs.len() as int) =~= parts);
    if contains(&empty, &truth) {
        if (x as usize) < XMAX && (y as usize) < YMAX {
            let ghost prev = grid;
            grid[x as usize][y as usize] = product;
            assert(cells_of(grid) =~= cells_of(prev).update(
                x as int,
                cells_of(prev)[x as int].update(y as int, product),
            ));
        } else {
            return None;
        }
    }
    Some(grid)
}


proof fn lemma_apply_lines_fail_stays(cells: Seq<Seq<u8>>, ls: Seq<Seq<char>>, j: int)
    requires
        0 <= j <= ls.len(),
        apply_lines(cells, ls.take(j)) is None,
    ensures
        apply_lines(cells, ls) is None,
    decreases ls.len() - j,
{
    if j < ls.len() {
        assert(ls.take(j + 1).drop_last() =~= ls.take(j));
        lemma_apply_lines_fail_stays(cells, ls, j + 1);
    } else {
        assert(ls.take(j) =~= ls);
    }
}

/// Reads the stock reply of the order server: the shelf it describes, or
/// `None` exactly where it cannot be read.
pub fn read_stock_reply(reply: &str) -> (r: Option<[[u8; YMAX]; XMAX]>)
    ensures
        match r {
            Some(c) => stock_from_reply(reply@) == Some(cells_of(c)),
            None => stock_from_reply(reply@) is None,
        },
{
    let text: Vec<char> = chars_of(reply);
    let ls: Vec<Vec<char>> = lines(&text);
    let mut grid: [[u8; YMAX]; XMAX] = [[0u8; YMAX]; XMAX];
    assert(cells_of(grid) =~= empty_cells()) by {
        assert forall|x: int| 0 <= x < XMAX implies cells_of(grid)[x] =~= #[trigger] empty_cells()[x] by {}
    }
    let ghost all = lines_of(reply@);
    if ls.len() <= 3 {
        assert(stock_lines(reply@) =~= Seq::<Seq<char>>::empty());
        return Some(grid);
    }
    let ghost body = stock_lines(reply@);
    assert(body =~= all.skip(3));
    let mut i: usize = 3;
    assert(body.take(0) =~= Seq::<Seq<char>>::empty());
    while i < ls.len()
        invariant
            3 <= i <= ls.len(),
            views(ls@) == all,
            body == all.skip(3),
            body == stock_lines(reply@),
            apply_lines(empty_cells(), body.take(i - 3)) == Some(cells_of(grid)),
        decreases ls.len() - i,
    {
        let lower: Vec<char> = to_lowercase(&ls[i]);
        assert(body.take(i - 2).drop_last() =~= body.take(i - 3));
        assert(body.take(i - 2).last() == ls@[i as int]@);
        match apply_position_line(grid, &lower) {
            Some(c) => {
                grid = c;
            },
            None => {
                proof {
                    lemma_apply_lines_fail_stays(empty_cells(), body, i - 2);
                }
                return None;
            },
        }
        i += 1;
    }
    assert(body.take(i - 3) =~= body);
    Some(grid)
}

/// The shelf that a stock reply describes.
pub(crate) fn get_positions_from_db(reply: &str) -> (r: [[u8; YMAX]; XMAX])
    requires
        stock_from_reply(reply@) is Some,
    ensures
        stock_from_reply(reply@) == Some(cells_of(r)),
{
    match read_stock_reply(reply) {
        Some(c) => c,
        None => vstd::pervasive::unreached(),
    }
}

/// The reply the order server gives when no order waits.
pub open spec fn no_order_marker() -> Seq<char> {
    seq!['O', 'R', 'D', 'S', 'Y', 'S', '/', '1', '.', '0', ' ', 'N', 'O', 'T', '_', 'R', 'E', 'A', 'D', 'Y']
}

/// The order held by a poll reply: `None` when the reply says that no order
/// waits (it contains `ORDSYS/1.0 NOT_READY`), the reply itself otherwise.
pub fn get_order_from_db(reply: String) -> (r: Option<String>)
    ensures
        match r {
            Some(order) => !contains_seq(reply@, no_order_marker()) && order@ == reply@,
            None => contains_seq(reply@, no_order_marker()),
        },
{
    let marker: Vec<char> = vec![
        'O',
        'R',
        'D',
        'S',
        'Y',
        'S',
        '/',
        '1',
        '.',
        '0',
        ' ',
        'N',
        'O',
        'T',
        '_',
        'R',
        'E',
        'A',
        'D',
        'Y',
    ];
    assert(marker@ == no_order_marker());
    let text: Vec<char> = chars_of(reply.as_str());
    if contains(&text, &marker) {
        return None;
    }
    Some(reply)
}

/// Confirms a finished order to the order server; there is nothing to do.
pub fn order_confirm_db(positions: Vec<super::Position>) {
}

/// The three header lines of a stock reply never affect the shelf: replies
/// whose lines after the third are the same describe the same shelf, and a
/// reply of at most three lines describes an empty shelf.
pub proof fn law_stock_header_ignored(r1: Seq<char>, r2: Seq<char>)
    requires
        stock_lines(r1) == stock_lines(r2),
    ensures
        stock_from_reply(r1) == stock_from_reply(r2),
        lines_of(r1).len() <= 3 ==> stock_from_reply(r1) == Some(empty_cells()),
{
    if lines_of(r1).len() <= 3 {
        assert(stock_lines(r1) =~= Seq::<Seq<char>>::empty());
    }
}

/// Request line asking the order server for the oldest order.
pub const REQUEST_LINE_PROCESS: &'static str = "PROCESS orders/oldest ORDSYS/1.0";

/// Request line updating cells of the order server's stock listing.
pub const REQUEST_UPDATE_POSITION: &'static str = "PATCH order-positions ORDSYS/1.0";

/// Request line asking the order server for its stock listing.
pub const REQUEST_GET_ORDER_POSITIONS_FULL: &'static str = "GET order-positions ORDSYS/1.0";

/// The decimal digit `d`.
pub open spec fn digit_char(d: nat) -> char {
    seq!['0', '1', '2', '3', '4', '5', '6', '7', '8', '9'][d as int]
}

/// The decimal text of `n`, without leading zeros.
pub open spec fn decimal(n: nat) -> Seq<char>
    decreases n,
{
    if n < 10 {
        seq![digit_char(n)]
    } else {
        decimal(n / 10).push(digit_char(n % 10))
    }
}

fn digit_text(d: u32) -> (r: &'static str)
    requires
        d < 10,
    ensures
        r@ == seq![digit_char(d as nat)],
{
    if d == 0 {
        proof {
            reveal_strlit("0");
        }
        "0"
    } else if d == 1 {
        proof {
            reveal_strlit("1");
        }
        "1"
    } else if d == 2 {
        proof {
            reveal_strlit("2");
        }
        "2"
    } else if d == 3 {
        proof {
            reveal_strlit("3");
        }
        "3"
    } else if d == 4 {
        proof {
            reveal_strlit("4");
        }
        "4"
    } else if d == 5 {
        proof {
            reveal_strlit("5");
        }
        "5"
    } else if d == 6 {
        proof {
            reveal_strlit("6");
        }
        "6"
    } else if d == 7 {
        proof {
            reveal_strlit("7");
        }
        "7"
    } else if d == 8 {
        proof {
            reveal_strlit("8");
        }
        "8"
    } else {
        proof {
            reveal_strlit("9");
        }
        "9"
    }
}

/// The decimal text of `n`, as `format!("{}", n)` writes it.
pub fn decimal_text(n: u32) -> (r: String)
    ensures
        r@ == decimal(n as nat),
    decreases n,
{
    if n < 10 {
        String::from_str(digit_text(n))
    } else {
        let mut s: String = decimal_text(n / 10);
        s.append(digit_text(n % 10));
        s
    }
}

/// The request reporting a completed order: `REPORT orders/<id> ORDSYS/1.0`,
/// the line `Status: OK`, then `body` (the emptied cells as JSON).
pub fn report_request(order_id: u32, body: &str) -> (r: String)
    ensures
        r@ == "REPORT orders/"@ + decimal(order_id as nat) + " ORDSYS/1.0\nStatus: OK\n"@ + body@,
{
    let mut s: String = String::from_str("REPORT orders/");
    let id: String = decimal_text(order_id);
    s.append(id.as_str());
    s.append(" ORDSYS/1.0\nStatus: OK\n");
    s.append(body);
    s
}

/// The request updating cells of the stock listing: the update request line,
/// a line break, then `body` (the cells as JSON).
pub fn update_position_request(body: &str) -> (r: String)
    ensures
        r@ == REQUEST_UPDATE_POSITION@ + "\n"@ + body@,
{
    let mut s: String = String::from_str(REQUEST_UPDATE_POSITION);
    s.append("\n");
    s.append(body);
    s
}

proof fn lemma_digit_char(d: nat)
    requires
        d < 10,
    ensures
        '0' <= digit_char(d) <= '9',
        digit_char(d) as int - '0' as int == d,
{
    assert(seq!['0', '1', '2', '3', '4', '5', '6', '7', '8', '9'][0] == '0');
    assert(seq!['0', '1', '2', '3', '4', '5', '6', '7', '8', '9'][1] == '1');
    assert(seq!['0', '1', '2', '3', '4', '5', '6', '7', '8', '9'][2] == '2');
    assert(seq!['0', '1', '2', '3', '4', '5', '6', '7', '8', '9'][3] == '3');
    assert(seq!['0', '1', '2', '3', '4', '5', '6', '7', '8', '9'][4] == '4');
    assert(seq!['0', '1', '2', '3', '4', '5', '6', '7', '8', '9'][5] == '5');
    assert(seq!['0', '1', '2', '3', '4', '5', '6', '7', '8', '9'][6] == '6');
    assert(seq!['0', '1', '2', '3', '4', '5', '6', '7', '8', '9'][7] == '7');
    assert(seq!['0', '1', '2', '3', '4', '5', '6', '7', '8', '9'][8] == '8');
    assert(seq!['0', '1', '2', '3', '4', '5', '6', '7', '8', '9'][9] == '9');
}

/// The decimal text of a number reads back as that number: it is a
/// non-empty run of ASCII digits whose value is `n`, with no leading zero
/// (unless `n` is zero), so `str::parse` gives `n` back for any bound at
/// least `n`.
pub proof fn law_decimal_reads_back(n: nat, max: int)
    ensures
        decimal(n).len() > 0,
        all_digits(decimal(n)),
        digits_value(decimal(n)) == n,
        decimal(n)[0] == '0' ==> n == 0,
        n <= max ==> parse_unsigned(decimal(n), max) == Some(n as int),
    decreases n,
{
    if n < 10 {
        lemma_digit_char(n);
        assert(decimal(n).drop_last() =~= Seq::<char>::empty());
        assert(digits_value(Seq::<char>::empty()) == 0);
        if decimal(n)[0] == '0' {
            assert(digit_char(n) == '0');
        }
    } else {
        let q = n / 10;
        let d = (n % 10) as nat;
        law_decimal_reads_back(q, max);
        lemma_digit_char(d);
        let s = decimal(n);
        assert(s == decimal(q).push(digit_char(d)));
        assert(s.drop_last() =~= decimal(q));
        assert(s[0] == decimal(q)[0]);
        assert forall|i: int| 0 <= i < s.len() implies '0' <= #[trigger] s[i] <= '9' by {
            if i < decimal(q).len() {
                assert(s[i] == decimal(q)[i]);
            }
        }
        assert(q * 10 + d == n) by (nonlinear_arith)
            requires
                q == n / 10,
                d == n % 10,
        ;
        assert(q > 0);
    }
    let s = decimal(n);
    if s[0] == '+' {
        assert('0' <= s[0] <= '9');
    }
}

} // verus!
