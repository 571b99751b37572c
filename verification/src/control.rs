//! The order workflow: orders polled from the order server wait in a queue,
//! one at a time is handed to the robot, and the robot's reports complete
//! orders and store sorted blocks.
use std::collections::VecDeque;

use vstd::multiset::Multiset;
use vstd::prelude::*;

use crate::server::{
    chosen, color_id, color_of_id, free_from, grid_shaped, listed, scan_len, Color, Grid, Position, XMAX,
    YMAX,
};
use crate::text::{chars_of, contains, contains_seq, trim, trim_chars};


verus! {

/// A queue of waiting items, taken from the front.
pub struct Queue<T> {
    pub list_of_queue: VecDeque<T>,
}

/// The state of the warehouse controller.
pub struct Thing {
    pub grid: Grid,
    pub current_order: Option<([u16; 4], u16)>,
    pub finished_orders: Queue<(Vec<Position>, u16)>,
    pub orders_to_process: Queue<([u16; 4], u16)>,
    pub history_orders: Vec<([u16; 4], u16)>,
    pub is_order_in_process: bool,
    pub sort_request: bool,
}

impl Thing {
    /// An order is in process exactly when there is a current order.
    pub open spec fn order_state_consistent(&self) -> bool {
        self.is_order_in_process == self.current_order is Some
    }

    /// Every order the controller holds: finished ones, the current one and
    /// the waiting ones.
    pub open spec fn known_orders(&self) -> Multiset<([u16; 4], u16)> {
        self.history_orders@.to_multiset().add(self.orders_to_process.list_of_queue@.to_multiset()).add(
            match self.current_order {
                Some(o) => Multiset::singleton(o),
                None => Multiset::empty(),
            },
        )
    }

    /// A controller for the given shelf with no orders yet.
    pub fn new(grid: Grid) -> (t: Thing)
        ensures
            t.grid == grid,
            t.current_order is None,
            t.finished_orders.list_of_queue@ == Seq::<(Vec<Position>, u16)>::empty(),
            t.orders_to_process.list_of_queue@ == Seq::<([u16; 4], u16)>::empty(),
            t.history_orders@ == Seq::<([u16; 4], u16)>::empty(),
            !t.is_order_in_process,
            !t.sort_request,
            t.order_state_consistent(),
    {
        Thing {
            grid,
            current_order: None,
            finished_orders: Queue { list_of_queue: VecDeque::new() },
            orders_to_process: Queue { list_of_queue: VecDeque::new() },
            history_orders: Vec::new(),
            is_order_in_process: false,
            sort_request: false,
        }
    }

    /// Whether the controller polls the order server: only while no order is
    /// in process.
    pub fn wants_order_update(&self) -> (r: bool)
        ensures
            r == !self.is_order_in_process,
    {
        !self.is_order_in_process
    }

    /// Takes in the result of a poll of the order server: a new order goes
    /// to the front of the waiting queue, unless an order is in process.
    pub fn read_database_thread(&mut self, update: Option<([u16; 4], u16)>)
        ensures
            final(self).orders_to_process.list_of_queue@ == if !old(self).is_order_in_process
                && update is Some {
                seq![update->0] + old(self).orders_to_process.list_of_queue@
            } else {
                old(self).orders_to_process.list_of_queue@
            },
            final(self).grid == old(self).grid,
            final(self).current_order == old(self).current_order,
            final(self).finished_orders == old(self).finished_orders,
            final(self).history_orders == old(self).history_orders,
            final(self).is_order_in_process == old(self).is_order_in_process,
            final(self).sort_request == old(self).sort_request,
            final(self).known_orders() == if !old(self).is_order_in_process && update is Some {
                old(self).known_orders().insert(update->0)
            } else {
                old(self).known_orders()
            },
    {
        broadcast use vstd::seq_lib::group_to_multiset_ensures, vstd::multiset::group_multiset_axioms;

        if !self.is_order_in_process {
            match update {
                Some(order) => {
                    let ghost q = self.orders_to_process.list_of_queue@;
                    self.orders_to_process.list_of_queue.push_front(order);
                    assert(seq![order] + q =~= q.insert(0, order));
                    assert(self.known_orders() =~= old(self).known_orders().insert(order));
                },
                None => {},
            }
        }
    }

    /// Starts the next order when none is in process: it leaves the front of
    /// the waiting queue and becomes the current order. Returns what to send
    /// to the robot: the id (as a byte) and the positions to fetch.
    pub fn process_order_queue(&mut self) -> (r: Option<(u8, Vec<Position>)>)
        ensures
            (!old(self).is_order_in_process && old(self).orders_to_process.list_of_queue@.len()
                > 0) ==> {
                let order = old(self).orders_to_process.list_of_queue@[0];
                &&& r matches Some(a) && a.0 == (order.1 % 256) as u8 && a.1@
                    == chosen(old(self).grid@, order.0@, scan_len())
                &&& final(self).orders_to_process.list_of_queue@
                    == old(self).orders_to_process.list_of_queue@.drop_first()
                &&& final(self).current_order == Some(order)
                &&& final(self).is_order_in_process
            },
            !(!old(self).is_order_in_process && old(self).orders_to_process.list_of_queue@.len()
                > 0) ==> r is None && final(self).orders_to_process == old(self).orders_to_process
                && final(self).current_order == old(self).current_order
                && final(self).is_order_in_process == old(self).is_order_in_process,
            final(self).grid == old(self).grid,
            final(self).finished_orders == old(self).finished_orders,
            final(self).history_orders == old(self).history_orders,
            final(self).sort_request == old(self).sort_request,
            old(self).order_state_consistent() ==> final(self).order_state_consistent()
                && final(self).known_orders() == old(self).known_orders(),
    {
        broadcast use vstd::seq_lib::group_to_multiset_ensures, vstd::multiset::group_multiset_axioms;

        if !self.is_order_in_process {
            if self.orders_to_process.list_of_queue.len() > 0 {
                self.is_order_in_process = true;
                let order_to_send: ([u16; 4], u16) = match self.orders_to_process.list_of_queue.pop_front() {
                    Some(o) => o,
                    None => vstd::pervasive::unreached(),
                };
                assert(self.orders_to_process.list_of_queue@ =~= old(
                    self,
                ).orders_to_process.list_of_queue@.drop_first());
                self.current_order = Some(order_to_send);
                proof {
                    let q = old(self).orders_to_process.list_of_queue@;
                    assert(q.drop_first() =~= q.remove(0));
                    if old(self).order_state_consistent() {
                        assert(self.known_orders() =~= old(self).known_orders());
                    }
                }
                let positions: Vec<Position> = self.grid.get_positions_for_order(order_to_send.0);
                return Some(((order_to_send.1 % 256) as u8, positions));
            }
        }
        None
    }
    /// Completes the finished order at the front of its queue: the current
    /// order moves to the history, no order is in process any more, and the
    /// fetched cells are emptied. Returns the positions and id to report.
    pub fn process_finished_order(&mut self) -> (r: Option<(Vec<Position>, u32)>)
        requires
            old(self).finished_orders.list_of_queue@.len() > 0 ==> old(self).current_order is Some
                && positions_on_shelf(old(self).finished_orders.list_of_queue@[0].0@),
        ensures
            old(self).finished_orders.list_of_queue@.len() > 0 ==> {
                let done = old(self).finished_orders.list_of_queue@[0];
                &&& r matches Some(a) && a.0@ == done.0@ && a.1 == done.1 as u32
                &&& final(self).finished_orders.list_of_queue@
                    == old(self).finished_orders.list_of_queue@.drop_first()
                &&& final(self).history_orders@ == old(self).history_orders@.push(
                    old(self).current_order->0,
                )
                &&& final(self).current_order is None
                &&& !final(self).is_order_in_process
                &&& grid_shaped(final(self).grid@)
                &&& forall|x: int, y: int|
                    0 <= x < XMAX && 0 <= y < YMAX ==> #[trigger] final(self).grid@[x][y] == if listed(
                        done.0@,
                        x,
                        y,
                    ) {
                        0
                    } else {
                        old(self).grid@[x][y]
                    }
            },
            old(self).finished_orders.list_of_queue@.len() == 0 ==> r is None && *final(self)
                == *old(self),
            final(self).orders_to_process == old(self).orders_to_process,
            final(self).sort_request == old(self).sort_request,
            old(self).order_state_consistent() ==> final(self).order_state_consistent(),
            final(self).known_orders() == old(self).known_orders(),
    {
        broadcast use vstd::seq_lib::group_to_multiset_ensures, vstd::multiset::group_multiset_axioms;

        if self.finished_orders.list_of_queue.len() > 0 {
            let order_done: (Vec<Position>, u16) = match self.finished_orders.list_of_queue.pop_front() {
                Some(o) => o,
                None => vstd::pervasive::unreached(),
            };
            assert(self.finished_orders.list_of_queue@ =~= old(
                self,
            ).finished_orders.list_of_queue@.drop_first());
            let d: ([u16; 4], u16) = match self.current_order {
                Some(c) => c,
                None => vstd::pervasive::unreached(),
            };
            self.history_orders.push(d);
            self.current_order = None;
            assert(self.known_orders() =~= old(self).known_orders());
            let sent: Vec<Position> = copy_positions(&order_done.0);
            self.is_order_in_process = false;
            self.grid.order_update_position(order_done.0);
            return Some((sent, order_done.1 as u32));
        }
        None
    }
}

/// Every position lies on the shelf.
pub open spec fn positions_on_shelf(ps: Seq<Position>) -> bool {
    forall|i: int|
        0 <= i < ps.len() ==> (#[trigger] ps[i]).position_x < XMAX && ps[i].position_y < YMAX
}

/// A copy of a list of positions.
pub fn copy_positions(ps: &Vec<Position>) -> (r: Vec<Position>)
    ensures
        r@ == ps@,
{
    let mut r: Vec<Position> = Vec::new();
    let mut i: usize = 0;
    while i < ps.len()
        invariant
            i <= ps.len(),
            r@ == ps@.take(i as int),
        decreases ps.len() - i,
    {
        r.push(ps[i]);
        i += 1;
        assert(r@ =~= ps@.take(i as int));
    }
    assert(ps@.take(ps@.len() as int) =~= ps@);
    r
}

/// A report of the robot, with the fields read from its JSON text: the
/// command text, and each field that was present as a whole number
/// (`positions` as a list of positions).
pub struct RobotMessage {
    pub command: String,
    pub order_id: Option<u64>,
    pub positions: Option<Vec<Position>>,
    pub x: Option<u64>,
    pub y: Option<u64>,
    pub color: Option<u64>,
}

/// What answering a robot report asks to send: the cell just stored (to the
/// order server) and the cell for a block to be sorted, with its colour (to
/// the robot).
pub struct RobotActions {
    pub stored: Option<(u8, u8, Color)>,
    pub sort: Option<(Position, u64)>,
}

/// `order_confirm`
pub open spec fn word_order_confirm() -> Seq<char> {
    seq!['o', 'r', 'd', 'e', 'r', '_', 'c', 'o', 'n', 'f', 'i', 'r', 'm']
}

/// `sort_confirm`
pub open spec fn word_sort_confirm() -> Seq<char> {
    seq!['s', 'o', 'r', 't', '_', 'c', 'o', 'n', 'f', 'i', 'r', 'm']
}

/// `sort_request`
pub open spec fn word_sort_request() -> Seq<char> {
    seq!['s', 'o', 'r', 't', '_', 'r', 'e', 'q', 'u', 'e', 's', 't']
}

/// The trimmed command text contains `word`.
pub open spec fn says(command: Seq<char>, word: Seq<char>) -> bool {
    contains_seq(trim(command), word)
}

/// The cells after a sort confirmation of `msg` stored its block.
pub open spec fn cells_after_store(cells: Seq<Seq<u8>>, msg: RobotMessage) -> Seq<Seq<u8>> {
    if says(msg.command@, word_sort_confirm()) {
        let x = (msg.x->0 % 256) as int;
        let y = (msg.y->0 % 256) as int;
        cells.update(x, cells[x].update(y, (msg.color->0 % 256) as u8))
    } else {
        cells
    }
}

/// Answering `msg` does not panic: a confirmed order names its id and
/// positions; a confirmed sort names a colour (`1..=4` as a byte) and a cell
/// (as bytes) on the shelf; a sort request names a colour, and an empty cell
/// is left once any confirmed block is stored.
pub open spec fn robot_message_ok(cells: Seq<Seq<u8>>, msg: RobotMessage) -> bool {
    &&& says(msg.command@, word_order_confirm()) ==> msg.order_id is Some && msg.positions is Some
    &&& says(msg.command@, word_sort_confirm()) ==> {
        &&& msg.x is Some && msg.y is Some && msg.color is Some
        &&& 1 <= msg.color->0 % 256 <= 4
        &&& msg.x->0 % 256 < XMAX && msg.y->0 % 256 < YMAX
    }
    &&& says(msg.command@, word_sort_request()) ==> msg.color is Some && free_from(
        cells_after_store(cells, msg),
        0,
    ) is Some
}

/// How answering `msg` changes the controller from `old` to `new` and what it
/// asks to send (`r`): a confirmed order goes to the front of the finished
/// queue with its id cut to 16 bits; a confirmed sort stores its block;
/// a sort request is noted and answered with the first empty cell after
/// that and the requested colour; nothing else changes.
pub open spec fn robot_answered(old: Thing, new: Thing, msg: RobotMessage, r: RobotActions) -> bool {
    &&& new.finished_orders.list_of_queue@ == if says(msg.command@, word_order_confirm()) {
        seq![(msg.positions->0, (msg.order_id->0 % 0x10000) as u16)]
            + old.finished_orders.list_of_queue@
    } else {
        old.finished_orders.list_of_queue@
    }
    &&& new.grid@ == cells_after_store(old.grid@, msg)
    &&& r.stored == if says(msg.command@, word_sort_confirm()) {
        Some(
            (
                (msg.x->0 % 256) as u8,
                (msg.y->0 % 256) as u8,
                color_of_id((msg.color->0 % 256) as u8),
            ),
        )
    } else {
        None::<(u8, u8, Color)>
    }
    &&& new.sort_request == (old.sort_request || says(msg.command@, word_sort_request()))
    &&& says(msg.command@, word_sort_request()) ==> (r.sort matches Some(s) && Some(
        (s.0.position_x, s.0.position_y),
    ) == free_from(new.grid@, 0) && s.1 == msg.color->0)
    &&& !says(msg.command@, word_sort_request()) ==> r.sort is None
    &&& new.orders_to_process == old.orders_to_process
    &&& new.current_order == old.current_order
    &&& new.history_orders == old.history_orders
    &&& new.is_order_in_process == old.is_order_in_process
    &&& new.known_orders() == old.known_orders()
    &&& old.order_state_consistent() ==> new.order_state_consistent()
}

/// The three command words that `command` says.
fn command_words(command: &String) -> (r: (bool, bool, bool))
    ensures
        r.0 == says(command@, word_order_confirm()),
        r.1 == says(command@, word_sort_confirm()),
        r.2 == says(command@, word_sort_request()),
{
    let text: Vec<char> = trim_chars(&chars_of(command.as_str()));
    let order_confirm: Vec<char> = vec!['o', 'r', 'd', 'e', 'r', '_', 'c', 'o', 'n', 'f', 'i', 'r', 'm'];
    let sort_confirm: Vec<char> = vec!['s', 'o', 'r', 't', '_', 'c', 'o', 'n', 'f', 'i', 'r', 'm'];
    let sort_request: Vec<char> = vec!['s', 'o', 'r', 't', '_', 'r', 'e', 'q', 'u', 'e', 's', 't'];
    assert(order_confirm@ == word_order_confirm());
    assert(sort_confirm@ == word_sort_confirm());
    assert(sort_request@ == word_sort_request());
    (contains(&text, &order_confirm), contains(&text, &sort_confirm), contains(&text, &sort_request))
}

impl Thing {
    /// Answers a robot report: a confirmed order goes to the front of the
    /// finished queue (its id cut to 16 bits); a confirmed sort stores its
    /// block (cell and colour cut to bytes); a sort request is noted and
    /// answered with the first empty cell.
    pub fn interpret_robot(&mut self, msg: RobotMessage) -> (r: RobotActions)
        requires
            robot_message_ok(old(self).grid@, msg),
        ensures
            robot_answered(*old(self), *final(self), msg, r),
    {
        let words: (bool, bool, bool) = command_words(&msg.command);
        let RobotMessage { command, order_id, positions, x, y, color } = msg;
        if words.0 {
            let id: u64 = match order_id {
                Some(v) => v,
                None => vstd::pervasive::unreached(),
            };
            let list: Vec<Position> = match positions {
                Some(p) => p,
                None => vstd::pervasive::unreached(),
            };
            self.finished_orders.list_of_queue.push_front((list, (id % 0x10000) as u16));
        }
        let mut stored: Option<(u8, u8, Color)> = None;
        if words.1 {
            let x8: u8 = match x {
                Some(v) => (v % 256) as u8,
                None => vstd::pervasive::unreached(),
            };
            let y8: u8 = match y {
                Some(v) => (v % 256) as u8,
                None => vstd::pervasive::unreached(),
            };
            let c8: u8 = match color {
                Some(v) => (v % 256) as u8,
                None => vstd::pervasive::unreached(),
            };
            let c: Color = Color::from(c8);
            self.grid.sort_insert_lager_position(x8, y8, c);
            stored = Some((x8, y8, c));
        }
        let mut sort: Option<(Position, u64)> = None;
        if words.2 {
            self.sort_request = true;
            let wanted: u64 = match color {
                Some(v) => v,
                None => vstd::pervasive::unreached(),
            };
            let pos: (usize, usize) = match self.grid.get_free_position() {
                Some(p) => p,
                None => vstd::pervasive::unreached(),
            };
            sort = Some((Position { position_x: pos.0, position_y: pos.1 }, wanted));
        }
        RobotActions { stored, sort }
    }

    /// Answers a robot report where that does not panic; `None`, with
    /// nothing changed, where `interpret_robot` would panic on it.
    pub fn try_interpret_robot(&mut self, msg: RobotMessage) -> (r: Option<RobotActions>)
        ensures
            r is Some <==> robot_message_ok(old(self).grid@, msg),
            r is None ==> *final(self) == *old(self),
            r matches Some(a) ==> robot_answered(*old(self), *final(self), msg, a),
    {
        let words: (bool, bool, bool) = command_words(&msg.command);
        if words.0 && (msg.order_id.is_none() || msg.positions.is_none()) {
            return None;
        }
        let mut shelf: Grid = self.grid;
        if words.1 {
            let (x8, y8, c8): (u8, u8, u8) = match (msg.x, msg.y, msg.color) {
                (Some(a), Some(b), Some(c)) => ((a % 256) as u8, (b % 256) as u8, (c % 256) as u8),
                _ => {
                    return None;
                },
            };
            if !(1 <= c8 && c8 <= 4 && (x8 as usize) < XMAX && (y8 as usize) < YMAX) {
                return None;
            }
            shelf.sort_insert_lager_position(x8, y8, Color::from(c8));
        }
        if words.2 && (msg.color.is_none() || shelf.get_free_position().is_none()) {
            return None;
        }
        Some(self.interpret_robot(msg))
    }
}

/// The fields of a robot report text read as JSON: the JSON text of its
/// `command` field, its `order_id`, `x`, `y` and `color` fields where they
/// are whole numbers that fit in `u64`, and the JSON text of its `positions`
/// field (`null` for a missing field).
pub struct RobotReport {
    pub command: String,
    pub order_id: Option<u64>,
    pub positions: String,
    pub x: Option<u64>,
    pub y: Option<u64>,
    pub color: Option<u64>,
}

/// What a robot report text reads as: `None` when it is not JSON, otherwise
/// `(command text, order_id, positions text, x, y, color)`.
pub uninterp spec fn robot_report_of(buffer: Seq<char>) -> Option<
    (Seq<char>, Option<u64>, Seq<char>, Option<u64>, Option<u64>, Option<u64>),
>;

/// The plain values of a report.
pub open spec fn report_view(r: RobotReport) -> (
    Seq<char>,
    Option<u64>,
    Seq<char>,
    Option<u64>,
    Option<u64>,
    Option<u64>,
) {
    (r.command@, r.order_id, r.positions@, r.x, r.y, r.color)
}

/// Parses `buffer` with `serde_json::from_str` into a `serde_json::Value`
/// and picks its fields: `to_string` of the `command` and `positions`
/// entries and `as_u64` of the `order_id`, `x`, `y` and `color` entries
/// (indexing a missing entry gives `null`). Claimed: the result is a
/// function of the text alone, named `robot_report_of`, and `None` exactly
/// where the text is not JSON. Nothing more is stated of JSON parsing.
#[verifier::external_body]
fn parse_robot_report(buffer: &str) -> (r: Option<RobotReport>)
    ensures
        robot_report_of(buffer@) == match r {
            Some(m) => Some(report_view(m)),
            None => None,
        },
{
    let s: serde_json::Value = match serde_json::from_str(buffer) {
        Ok(v) => v,
        Err(_) => return None,
    };
    Some(RobotReport {
        command: s["command"].to_string(),
        order_id: s["order_id"].as_u64(),
        positions: s["positions"].to_string(),
        x: s["x"].as_u64(),
        y: s["y"].as_u64(),
        color: s["color"].as_u64(),
    })
}

/// Reads a robot report text as JSON; `None` where it is not JSON.
pub fn read_robot_report(buffer: &str) -> (r: Option<RobotReport>)
    ensures
        robot_report_of(buffer@) == match r {
            Some(m) => Some(report_view(m)),
            None => None,
        },
{
    parse_robot_report(buffer)
}

/// The message a report stands for, once its positions text has been read
/// as a list of positions (`positions`, `None` where it is not one).
pub open spec fn message_of(report: RobotReport, positions: Option<Vec<Position>>) -> RobotMessage {
    RobotMessage {
        command: report.command,
        order_id: report.order_id,
        positions,
        x: report.x,
        y: report.y,
        color: report.color,
    }
}

impl Thing {
    /// Answers a robot report read from its text: the message holds the
    /// report's fields and `positions`, the report's positions text read as
    /// a list of positions. `None`, with nothing changed, where answering
    /// would panic.
    pub fn answer_report(&mut self, report: RobotReport, positions: Option<Vec<Position>>) -> (r:
        Option<RobotActions>)
        ensures
            r is Some <==> robot_message_ok(old(self).grid@, message_of(report, positions)),
            r is None ==> *final(self) == *old(self),
            r matches Some(a) ==> robot_answered(
                *old(self),
                *final(self),
                message_of(report, positions),
                a,
            ),
    {
        let msg = RobotMessage {
            command: report.command,
            order_id: report.order_id,
            positions,
            x: report.x,
            y: report.y,
            color: report.color,
        };
        self.try_interpret_robot(msg)
    }
}

/// A confirmed sort stores exactly the confirmed block: the reported cell
/// now holds the number of the reported colour, which is the colour number
/// the robot sent (as a byte) and names a block, and every other cell of
/// the shelf is unchanged.
pub proof fn law_stored_cell_holds_confirmed_colour(
    old: Thing,
    new: Thing,
    msg: RobotMessage,
    r: RobotActions,
)
    requires
        robot_message_ok(old.grid@, msg),
        robot_answered(old, new, msg, r),
        grid_shaped(old.grid@),
        r.stored is Some,
    ensures
        ({
            let (x, y, c) = r.stored->0;
            &&& c != Color::Empty
            &&& color_id(c) as int == msg.color->0 % 256
            &&& new.grid@[x as int][y as int] == color_id(c)
            &&& forall|i: int, j: int|
                0 <= i < XMAX && 0 <= j < YMAX && (i != x || j != y) ==> #[trigger] new.grid@[i][j]
                    == old.grid@[i][j]
        }),
{
    let (x, y, c) = r.stored->0;
    let v = (msg.color->0 % 256) as u8;
    assert(1 <= v <= 4);
    assert(c == color_of_id(v));
    assert(color_id(c) == v);
}

} // verus!
