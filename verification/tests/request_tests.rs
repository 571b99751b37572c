use warehouse::server::internal::{
    decimal_text, report_request, update_position_request, REQUEST_GET_ORDER_POSITIONS_FULL,
    REQUEST_LINE_PROCESS, REQUEST_UPDATE_POSITION,
};
use warehouse::server::{Color, Grid};

fn grid_of(cells: &[(usize, usize, u8)], header: &str) -> Grid {
    let mut reply = String::from(header);
    for &(x, y, c) in cells {
        reply.push_str(&format!(
            " \" position_x\": {x} , \" position_y\": {y} , \"product_type_id\": {c} ,]\n"
        ));
    }
    Grid::try_new(&reply).unwrap()
}

fn cells(g: &Grid) -> Vec<Vec<u8>> {
    (0..4).map(|x| (0..6).map(|y| g.cell(x, y)).collect()).collect()
}

#[test]
fn decimal_text_matches_format() {
    for n in [0u32, 7, 10, 42, 300, 65535, u32::MAX] {
        assert_eq!(decimal_text(n), n.to_string());
    }
}

#[test]
fn request_texts() {
    assert_eq!(report_request(17, "{}"), "REPORT orders/17 ORDSYS/1.0\nStatus: OK\n{}");
    assert_eq!(update_position_request("[1]"), "PATCH order-positions ORDSYS/1.0\n[1]");
    assert_eq!(REQUEST_LINE_PROCESS, "PROCESS orders/oldest ORDSYS/1.0");
    assert_eq!(REQUEST_UPDATE_POSITION, "PATCH order-positions ORDSYS/1.0");
    assert_eq!(REQUEST_GET_ORDER_POSITIONS_FULL, "GET order-positions ORDSYS/1.0");
}

#[test]
fn larger_request_keeps_earlier_picks_in_order() {
    let g = grid_of(&[(0, 0, 1), (1, 0, 2), (2, 0, 1), (0, 1, 3), (1, 1, 1), (2, 1, 2)], "a\nb\nc\n");
    let small = g.get_positions_for_order([1, 1, 0, 0]);
    let large = g.get_positions_for_order([3, 2, 1, 0]);
    let mut it = large.iter();
    for p in &small {
        assert!(it.any(|q| q == p), "{p:?} missing or out of order");
    }
    assert_eq!(large.len(), 6);
}

#[test]
fn cleared_cells_are_not_picked_again() {
    let mut g = grid_of(&[(0, 0, 1), (1, 0, 1), (2, 0, 1), (0, 1, 2)], "a\nb\nc\n");
    let first = g.get_positions_for_order([2, 1, 0, 0]);
    g.order_update_position(first.clone());
    let second = g.get_positions_for_order([2, 1, 0, 0]);
    assert_eq!(second.len(), 1);
    for p in &second {
        assert!(!first.contains(p));
    }
}

#[test]
fn stored_cell_makes_next_free_cell_later() {
    let mut g = grid_of(&[(0, 0, 1), (2, 0, 3)], "a\nb\nc\n");
    let (x, y) = g.get_free_position().unwrap();
    assert_eq!((x, y), (1, 0));
    g.sort_insert_lager_position(x as u8, y as u8, Color::Red);
    let (x2, y2) = g.get_free_position().unwrap();
    assert!(y2 * 3 + x2 > y * 3 + x);
    assert_eq!((x2, y2), (0, 1));
}

#[test]
fn stock_header_lines_do_not_matter() {
    let stock = [(1, 1, 2), (2, 3, 4)];
    let a = grid_of(&stock, "x\ny\nz\n");
    let b = grid_of(&stock, " \" position_x\": 0 , \" position_y\": 0 , \"product_type_id\": 1 ,]\n\n\n");
    assert_eq!(cells(&a), cells(&b));
    let empty = Grid::try_new("one\ntwo\n \" position_x\": 0 , \" position_y\": 0 , \"product_type_id\": 1 ,]").unwrap();
    assert!(cells(&empty).iter().flatten().all(|&v| v == 0));
}
