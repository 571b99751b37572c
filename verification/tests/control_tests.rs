use warehouse::control::{read_robot_report, RobotMessage, Thing};
use warehouse::server::{Color, Grid, Position};

fn stock_reply(cells: &[(usize, usize, u8)]) -> String {
    let mut reply = String::from("h1\nh2\nh3\n");
    for &(x, y, c) in cells {
        reply.push_str(&format!(
            " \" position_x\": {x} , \" position_y\": {y} , \"product_type_id\": {c} ,]\n"
        ));
    }
    reply
}

fn thing_with(cells: &[(usize, usize, u8)]) -> Thing {
    Thing::new(Grid::try_new(&stock_reply(cells)).unwrap())
}

fn message(command: &str) -> RobotMessage {
    RobotMessage {
        command: command.to_string(),
        order_id: None,
        positions: None,
        x: None,
        y: None,
        color: None,
    }
}

#[test]
fn new_controller_is_idle() {
    let t = thing_with(&[]);
    assert!(t.current_order.is_none());
    assert!(t.orders_to_process.list_of_queue.is_empty());
    assert!(t.finished_orders.list_of_queue.is_empty());
    assert!(t.history_orders.is_empty());
    assert!(!t.is_order_in_process);
    assert!(!t.sort_request);
    assert!(t.wants_order_update());
}

#[test]
fn newest_order_is_started_first() {
    let mut t = thing_with(&[(0, 0, 1), (1, 0, 2)]);
    t.read_database_thread(Some(([1, 0, 0, 0], 1)));
    t.read_database_thread(None);
    t.read_database_thread(Some(([0, 1, 0, 0], 300)));
    assert_eq!(t.orders_to_process.list_of_queue.len(), 2);
    let (id, positions) = t.process_order_queue().unwrap();
    // the id is sent as a byte
    assert_eq!(id, (300 % 256) as u8);
    assert_eq!(positions, vec![Position { position_x: 1, position_y: 0 }]);
    assert_eq!(t.current_order, Some(([0, 1, 0, 0], 300)));
    assert!(t.is_order_in_process);
    assert!(!t.wants_order_update());
    // no second order starts while one is in process, and polls are ignored
    assert!(t.process_order_queue().is_none());
    t.read_database_thread(Some(([0, 0, 1, 0], 2)));
    assert_eq!(t.orders_to_process.list_of_queue.len(), 1);
}

#[test]
fn finished_order_moves_to_history_and_empties_cells() {
    let mut t = thing_with(&[(0, 0, 1), (1, 0, 1)]);
    t.read_database_thread(Some(([2, 0, 0, 0], 5)));
    let (_, positions) = t.process_order_queue().unwrap();
    assert_eq!(positions.len(), 2);
    assert!(t.process_finished_order().is_none());
    let mut done = message("\"order_confirm\"");
    done.order_id = Some(5);
    done.positions = Some(positions.clone());
    let actions = t.interpret_robot(done);
    assert!(actions.stored.is_none() && actions.sort.is_none());
    assert_eq!(t.finished_orders.list_of_queue.len(), 1);
    let (reported, id) = t.process_finished_order().unwrap();
    assert_eq!(reported, positions);
    assert_eq!(id, 5);
    assert_eq!(t.history_orders, vec![([2, 0, 0, 0], 5)]);
    assert!(t.current_order.is_none());
    assert!(!t.is_order_in_process);
    assert_eq!(t.grid.cell(0, 0), 0);
    assert_eq!(t.grid.cell(1, 0), 0);
}

#[test]
fn order_confirmation_id_is_cut_to_sixteen_bits() {
    let mut t = thing_with(&[]);
    let mut done = message("order_confirm");
    done.order_id = Some(65536 + 9);
    done.positions = Some(vec![]);
    t.interpret_robot(done);
    assert_eq!(t.finished_orders.list_of_queue[0].1, 9);
}

#[test]
fn sort_confirmation_stores_the_block() {
    let mut t = thing_with(&[]);
    let mut m = message("\"sort_confirm\"");
    m.x = Some(2);
    m.y = Some(256 + 3);
    m.color = Some(4);
    let actions = t.interpret_robot(m);
    assert_eq!(actions.stored, Some((2, 3, Color::Blue)));
    assert_eq!(t.grid.cell(2, 3), 4);
}

#[test]
fn sort_request_is_answered_with_first_empty_cell() {
    let mut t = thing_with(&[(0, 0, 1)]);
    let mut m = message(" sort_request ");
    m.color = Some(3);
    let actions = t.interpret_robot(m);
    assert!(t.sort_request);
    assert_eq!(actions.sort, Some((Position { position_x: 1, position_y: 0 }, 3)));
}

#[test]
fn sort_confirm_and_request_in_one_message() {
    let mut t = thing_with(&[]);
    let mut m = message("sort_confirm sort_request");
    m.x = Some(0);
    m.y = Some(0);
    m.color = Some(2);
    let actions = t.interpret_robot(m);
    assert_eq!(actions.stored, Some((0, 0, Color::Yellow)));
    assert_eq!(actions.sort, Some((Position { position_x: 1, position_y: 0 }, 2)));
}

#[test]
fn unreadable_robot_messages_change_nothing() {
    let mut t = thing_with(&[]);
    assert!(t.try_interpret_robot(message("order_confirm")).is_none());
    let mut bad_colour = message("sort_confirm");
    bad_colour.x = Some(0);
    bad_colour.y = Some(0);
    bad_colour.color = Some(5);
    assert!(t.try_interpret_robot(bad_colour).is_none());
    let mut off_shelf = message("sort_confirm");
    off_shelf.x = Some(4);
    off_shelf.y = Some(0);
    off_shelf.color = Some(1);
    assert!(t.try_interpret_robot(off_shelf).is_none());
    assert!(t.try_interpret_robot(message("sort_request")).is_none());
    assert!(t.finished_orders.list_of_queue.is_empty());
    assert_eq!(t.grid.cell(0, 0), 0);
    assert!(!t.sort_request);
    // a message with no known command does nothing
    let actions = t.try_interpret_robot(message("hello")).unwrap();
    assert!(actions.stored.is_none() && actions.sort.is_none());
}

#[test]
fn sort_request_on_a_full_scan_is_refused() {
    let mut cells = Vec::new();
    for y in 0..5 {
        for x in 0..3 {
            cells.push((x, y, 2));
        }
    }
    let mut t = thing_with(&cells);
    let mut m = message("sort_request");
    m.color = Some(1);
    assert!(t.try_interpret_robot(m).is_none());
}

fn known(t: &Thing) -> Vec<([u16; 4], u16)> {
    let mut all: Vec<([u16; 4], u16)> = t.history_orders.clone();
    all.extend(t.orders_to_process.list_of_queue.iter().copied());
    all.extend(t.current_order);
    all.sort();
    all
}

#[test]
fn orders_are_neither_lost_nor_duplicated() {
    let mut t = thing_with(&[(0, 0, 1)]);
    t.read_database_thread(Some(([1, 0, 0, 0], 1)));
    t.read_database_thread(Some(([0, 0, 0, 0], 2)));
    let before = known(&t);
    assert_eq!(before.len(), 2);
    t.process_order_queue();
    assert_eq!(known(&t), before);
    assert_eq!(t.is_order_in_process, t.current_order.is_some());
    let mut done = message("order_confirm");
    done.order_id = Some(2);
    done.positions = Some(vec![]);
    t.interpret_robot(done);
    assert_eq!(known(&t), before);
    t.process_finished_order();
    assert_eq!(known(&t), before);
    assert_eq!(t.is_order_in_process, t.current_order.is_some());
    assert_eq!(t.history_orders, vec![([0, 0, 0, 0], 2)]);
}

#[test]
fn robot_report_text_is_read_as_json() {
    let r = read_robot_report(
        "{\"command\": \"sort_confirm\", \"x\": 1, \"y\": 2, \"color\": 3, \"order_id\": -4, \"positions\": [{\"position_x\": 0, \"position_y\": 1}]}",
    )
    .unwrap();
    assert_eq!(r.command, "\"sort_confirm\"");
    assert_eq!((r.x, r.y, r.color), (Some(1), Some(2), Some(3)));
    assert_eq!(r.order_id, None);
    assert_eq!(r.positions, "[{\"position_x\":0,\"position_y\":1}]");
    let missing = read_robot_report("{\"command\": \"start\"}").unwrap();
    assert_eq!(missing.positions, "null");
    assert_eq!(missing.x, None);
    assert!(read_robot_report("not json").is_none());
    assert!(read_robot_report("").is_none());
}

#[test]
fn robot_report_is_answered() {
    let mut t = thing_with(&[]);
    let report = read_robot_report("{\"command\": \"sort_confirm\", \"x\": 2, \"y\": 3, \"color\": 4}").unwrap();
    let actions = t.answer_report(report, None).unwrap();
    assert_eq!(actions.stored, Some((2, 3, Color::Blue)));
    assert_eq!(t.grid.cell(2, 3), 4);
    let confirm = read_robot_report("{\"command\": \"order_confirm\", \"order_id\": 8}").unwrap();
    assert!(t.answer_report(confirm, None).is_none());
    assert!(t.finished_orders.list_of_queue.is_empty());
    let confirm = read_robot_report("{\"command\": \"order_confirm\", \"order_id\": 8}").unwrap();
    let positions = vec![Position { position_x: 0, position_y: 0 }];
    t.answer_report(confirm, Some(positions.clone())).unwrap();
    assert_eq!(t.finished_orders.list_of_queue[0], (positions, 8));
}
