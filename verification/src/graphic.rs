//! Decisions of the control panel: what the "Submit" button does with the
//! four amounts typed in.
use vstd::prelude::*;

use crate::server::{chosen, count_value, free_counts_defined, scan_len, Grid, Position};
use crate::server::internal::{decimal, law_decimal_reads_back};
use crate::text::{chars_of, parse_decimal, parse_unsigned};

verus! {

/// Sets up the panel; there is nothing to prepare.
pub fn init() {
}

/// The id under which an order typed into the panel is sent.
pub const PANEL_ORDER_ID: u8 = 10;

/// The text reads as a `u16`.
pub open spec fn reads_u16(s: Seq<char>) -> bool {
    parse_unsigned(s, 0xffff) is Some
}

/// Whether "Submit" acts on the four texts: one of them is not empty or
/// reads as a number (the red text is asked twice, the yellow one never
/// read as a number).
pub open spec fn submit_condition(
    red: Seq<char>,
    yellow: Seq<char>,
    green: Seq<char>,
    blue: Seq<char>,
) -> bool {
    red.len() != 0 || reads_u16(red) || yellow.len() != 0 || reads_u16(red) || blue.len() != 0
        || reads_u16(blue) || green.len() != 0 || reads_u16(green)
}

/// "Submit" does not panic: where it acts, the free counts of the shelf are
/// defined and all four texts read as numbers.
pub open spec fn submit_ok(
    cells: Seq<Seq<u8>>,
    red: Seq<char>,
    yellow: Seq<char>,
    green: Seq<char>,
    blue: Seq<char>,
) -> bool {
    submit_condition(red, yellow, green, blue) ==> free_counts_defined(cells) && reads_u16(red)
        && reads_u16(yellow) && reads_u16(green) && reads_u16(blue)
}

/// The amount a text reads as.
pub open spec fn amount(s: Seq<char>) -> u16 {
    parse_unsigned(s, 0xffff)->0 as u16
}

/// Where "Submit" sends an order: it acts, and each amount is at most the
/// matching number of `get_free` (empty cells for red, red cells for
/// yellow, yellow cells for green, green cells for blue).
pub open spec fn submit_sends(
    cells: Seq<Seq<u8>>,
    red: Seq<char>,
    yellow: Seq<char>,
    green: Seq<char>,
    blue: Seq<char>,
) -> bool {
    &&& submit_condition(red, yellow, green, blue)
    &&& count_value(cells, 0, scan_len()) >= amount(red)
    &&& count_value(cells, 1, scan_len()) >= amount(yellow)
    &&& count_value(cells, 2, scan_len()) >= amount(green)
    &&& count_value(cells, 3, scan_len()) >= amount(blue)
}

fn read_amount(s: &str) -> (r: u16)
    requires
        reads_u16(s@),
    ensures
        r == amount(s@),
{
    match parse_decimal(&chars_of(s), 0xffff) {
        Some(v) => v as u16,
        None => vstd::pervasive::unreached(),
    }
}

/// What "Submit" does with the four texts: the id and positions of the order
/// to send to the robot, or `None` when nothing is sent.
pub fn submit_order(grid: &Grid, red: &str, yellow: &str, green: &str, blue: &str) -> (r: Option<
    (u8, Vec<Position>),
>)
    requires
        submit_ok(grid@, red@, yellow@, green@, blue@),
    ensures
        r is Some <==> submit_sends(grid@, red@, yellow@, green@, blue@),
        r matches Some(a) ==> a.0 == PANEL_ORDER_ID && a.1@ == chosen(
            grid@,
            seq![amount(red@), amount(yellow@), amount(green@), amount(blue@)],
            scan_len(),
        ),
{
    let r_text: Vec<char> = chars_of(red);
    let y_text: Vec<char> = chars_of(yellow);
    let g_text: Vec<char> = chars_of(green);
    let b_text: Vec<char> = chars_of(blue);
    let acts: bool = r_text.len() != 0 || parse_decimal(&r_text, 0xffff).is_some() || y_text.len()
        != 0 || parse_decimal(&r_text, 0xffff).is_some() || b_text.len() != 0 || parse_decimal(
        &b_text,
        0xffff,
    ).is_some() || g_text.len() != 0 || parse_decimal(&g_text, 0xffff).is_some();
    if !acts {
        return None;
    }
    let tuple: (u16, u16, u16, u16) = grid.get_free();
    let r_amount: u16 = read_amount(red);
    let y_amount: u16 = read_amount(yellow);
    let g_amount: u16 = read_amount(green);
    let b_amount: u16 = read_amount(blue);
    if tuple.0 >= r_amount {
        if tuple.1 >= y_amount {
            if tuple.2 >= g_amount {
                if tuple.3 >= b_amount {
                    let objects: [u16; 4] = [r_amount, y_amount, g_amount, b_amount];
                    assert(objects@ =~= seq![r_amount, y_amount, g_amount, b_amount]);
                    let v: Vec<Position> = grid.get_positions_for_order(objects);
                    return Some((PANEL_ORDER_ID, v));
                }
            }
        }
    }
    None
}

/// `submit_order` where it does not panic: `None` where it would, otherwise
/// `Some` of what it returns.
pub fn try_submit_order(grid: &Grid, red: &str, yellow: &str, green: &str, blue: &str) -> (r: Option<
    Option<(u8, Vec<Position>)>,
>)
    ensures
        r is Some <==> submit_ok(grid@, red@, yellow@, green@, blue@),
        r matches Some(Some(a)) ==> submit_sends(grid@, red@, yellow@, green@, blue@) && a.0
            == PANEL_ORDER_ID && a.1@ == chosen(
            grid@,
            seq![amount(red@), amount(yellow@), amount(green@), amount(blue@)],
            scan_len(),
        ),
        r matches Some(None) ==> !submit_sends(grid@, red@, yellow@, green@, blue@),
{
    let r_text: Vec<char> = chars_of(red);
    let y_text: Vec<char> = chars_of(yellow);
    let g_text: Vec<char> = chars_of(green);
    let b_text: Vec<char> = chars_of(blue);
    let r_ok: bool = parse_decimal(&r_text, 0xffff).is_some();
    let y_ok: bool = parse_decimal(&y_text, 0xffff).is_some();
    let g_ok: bool = parse_decimal(&g_text, 0xffff).is_some();
    let b_ok: bool = parse_decimal(&b_text, 0xffff).is_some();
    let acts: bool = r_text.len() != 0 || r_ok || y_text.len() != 0 || r_ok || b_text.len() != 0
        || b_ok || g_text.len() != 0 || g_ok;
    if acts && !(grid.free_counts_defined() && r_ok && y_ok && g_ok && b_ok) {
        return None;
    }
    Some(submit_order(grid, red, yellow, green, blue))
}

/// A typed amount is the number its text parses to; in particular typing the
/// decimal text of any `n` up to `u16::MAX` gives the amount `n`.
pub proof fn law_amount_is_typed_number(s: Seq<char>, n: nat)
    ensures
        reads_u16(s) ==> amount(s) as int == parse_unsigned(s, 0xffff)->0,
        n <= 0xffff ==> reads_u16(decimal(n)) && amount(decimal(n)) == n,
{
    crate::text::lemma_parse_unsigned_range(s, 0xffff);
    law_decimal_reads_back(n, 0xffff);
    crate::text::lemma_parse_unsigned_range(decimal(n), 0xffff);
}

} // verus!
