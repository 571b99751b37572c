use warehouse::server::internal::{apply_position_line, get_order_from_db, order_confirm_db, read_stock_reply};
use warehouse::server::{
    apply_order_line, read_order, read_order_updates, try_read_order_updates, Color, Grid, Position,
};

fn stock_line(x: usize, y: usize, product: u8) -> String {
    format!(" \" position_x\": {x} , \" position_y\": {y} , \"empty\": false , \"product_type_id\": {product} ,]")
}

fn stock_reply(cells: &[(usize, usize, u8)]) -> String {
    let mut reply = String::from("ORDSYS/1.0 OK\nStatus: OK\n[\n");
    for &(x, y, c) in cells {
        reply.push_str(&stock_line(x, y, c));
        reply.push('\n');
    }
    reply
}

fn grid_of(cells: &[(usize, usize, u8)]) -> Grid {
    Grid::try_new(&stock_reply(cells)).expect("readable stock reply")
}

fn all_cells(g: &Grid) -> Vec<Vec<u8>> {
    (0..4).map(|x| (0..6).map(|y| g.cell(x, y)).collect()).collect()
}

#[test]
fn color_names() {
    assert!(matches!(Color::from_str("red"), Some(Color::Red)));
    assert!(matches!(Color::from_str("yellow"), Some(Color::Yellow)));
    assert!(matches!(Color::from_str("green"), Some(Color::Green)));
    assert!(matches!(Color::from_str("blue"), Some(Color::Blue)));
    assert!(Color::from_str("Red").is_none());
    assert!(Color::from_str("").is_none());
    assert_eq!(Color::Red.to_str(), "red");
    assert_eq!(Color::Yellow.to_str(), "yellow");
    assert_eq!(Color::Green.to_str(), "green");
    assert_eq!(Color::Blue.to_str(), "blue");
}

#[test]
fn color_numbers() {
    assert_eq!(Color::from(1), Color::Red);
    assert_eq!(Color::from(2), Color::Yellow);
    assert_eq!(Color::from(3), Color::Green);
    assert_eq!(Color::from(4), Color::Blue);
    assert_eq!(Color::Empty.to_u8(), 0);
    assert_eq!(Color::Blue.to_u8(), 4);
    for c in [Color::Red, Color::Yellow, Color::Green, Color::Blue] {
        assert_eq!(Color::from(c.to_u8()), c);
        assert_eq!(Color::from_str(c.to_str()), Some(c));
    }
}

#[test]
fn stock_reply_fills_the_cells() {
    let g = grid_of(&[(1, 2, 3), (0, 0, 4), (3, 5, 1)]);
    let cells = all_cells(&g);
    assert_eq!(cells[1][2], 3);
    assert_eq!(cells[0][0], 4);
    assert_eq!(cells[3][5], 1);
    let filled: usize = cells.iter().flatten().filter(|&&v| v != 0).count();
    assert_eq!(filled, 3);
}

#[test]
fn stock_reply_skips_three_header_lines_and_lowercases() {
    let reply = " \" position_x\": 1 , \" position_y\": 1 , \"product_type_id\": 2 ,]\nb\nc\n \" POSITION_X\": 2 , \" Position_Y\": 4 , \"PRODUCT_TYPE_ID\": 4 ,]";
    let g = Grid::try_new(reply).unwrap();
    assert_eq!(g.cell(1, 1), 0);
    assert_eq!(g.cell(2, 4), 4);
    assert!(read_stock_reply("a\nb").is_some());
}

#[test]
fn stock_line_with_empty_flag_writes_again() {
    let cells = [[0u8; 6]; 4];
    let line: Vec<char> = " \" position_x\": 2 , \" position_y\": 3 , \"empty\": true , \"product_type_id\": 2 "
        .chars()
        .collect();
    let out = apply_position_line(cells, &line).unwrap();
    assert_eq!(out[2][3], 2);
    // without `]` nor the empty flag nothing is written
    let quiet: Vec<char> = " \" position_x\": 2 , \" position_y\": 3 , \"product_type_id\": 2 ".chars().collect();
    // a trailing comma leaves an empty attribute, which writes the cell
    let trailing: Vec<char> = " \" position_x\": 2 , \" position_y\": 3 , \"product_type_id\": 2 ,".chars().collect();
    assert_eq!(apply_position_line(cells, &trailing).unwrap()[2][3], 2);
    assert_eq!(apply_position_line(cells, &quiet).unwrap(), cells);
}

#[test]
fn stock_line_errors() {
    let cells = [[0u8; 6]; 4];
    let off_shelf: Vec<char> = " \" position_x\": 4 , \" position_y\": 0 ,]".chars().collect();
    assert!(apply_position_line(cells, &off_shelf).is_none());
    let bad_number: Vec<char> = " \" position_x\": x1 ,]".chars().collect();
    assert!(apply_position_line(cells, &bad_number).is_none());
    let big_product: Vec<char> = " \"product_type_id\": 300 ,]".chars().collect();
    assert!(apply_position_line(cells, &big_product).is_none());
    assert!(Grid::try_new("h\nh\nh\n \" position_x\": 9 ,]").is_none());
}

#[test]
fn get_free_counts_one_colour_late() {
    // cell values: 0 empty, 1 red, 2 yellow, 3 green
    let g = grid_of(&[(0, 0, 1), (1, 0, 1), (2, 0, 2), (0, 1, 3)]);
    let (a, b, c, d) = g.get_free();
    assert_eq!((a, b, c, d), (11, 2, 1, 1));
    assert_eq!(a + b + c + d, 15);
}

#[test]
fn free_counts_undefined_with_blue_in_scan() {
    let g = grid_of(&[(0, 0, 4)]);
    assert!(!g.free_counts_defined());
    // the last row and column are outside the scan
    let g = grid_of(&[(3, 0, 4), (0, 5, 9)]);
    assert!(g.free_counts_defined());
}

#[test]
fn positions_for_order_follow_scan_order() {
    let g = grid_of(&[(2, 0, 1), (0, 1, 1), (1, 1, 4), (0, 0, 2), (1, 2, 1), (3, 0, 1)]);
    let ps = g.get_positions_for_order([2, 1, 0, 5]);
    assert_eq!(
        ps,
        vec![
            Position { position_x: 0, position_y: 0 },
            Position { position_x: 2, position_y: 0 },
            Position { position_x: 0, position_y: 1 },
            Position { position_x: 1, position_y: 1 },
        ]
    );
    assert!(g.get_positions_for_order([0, 0, 0, 0]).is_empty());
}

#[test]
fn positions_for_order_fill_request_as_far_as_stock_allows() {
    // law: per colour, min(requested, available in the scan)
    let g = grid_of(&[(0, 0, 1), (1, 0, 1), (2, 0, 1), (0, 1, 2), (3, 3, 2)]);
    let ps = g.get_positions_for_order([2, 5, 1, 0]);
    let colour_count = |c: u8| ps.iter().filter(|p| g.cell(p.position_x, p.position_y) == c).count();
    assert_eq!(colour_count(1), 2);
    assert_eq!(colour_count(2), 1);
    assert_eq!(colour_count(3), 0);
    for p in &ps {
        assert!(p.position_x < 3 && p.position_y < 5);
    }
}

#[test]
fn completing_an_order_takes_its_blocks() {
    let mut g = grid_of(&[(0, 0, 1), (1, 0, 1), (2, 0, 3), (0, 1, 1)]);
    let ps = g.get_positions_for_order([2, 0, 1, 0]);
    let before = g.get_free();
    g.order_update_position(ps.clone());
    let after = g.get_free();
    // red cells go from 3 to 1, green from 1 to 0, empty cells grow by 3
    assert_eq!(before, (11, 3, 0, 1));
    assert_eq!(after, (14, 1, 0, 0));
    for p in &ps {
        assert_eq!(g.cell(p.position_x, p.position_y), 0);
    }
    assert_eq!(g.cell(0, 1), 1);
}

#[test]
fn sort_insert_and_free_position() {
    let mut g = grid_of(&[(0, 0, 1), (1, 0, 2)]);
    assert_eq!(g.get_free_position(), Some((2, 0)));
    g.sort_insert_lager_position(2, 0, Color::Green);
    assert_eq!(g.cell(2, 0), 3);
    assert_eq!(g.get_free_position(), Some((0, 1)));
    let mut full = Vec::new();
    for y in 0..5 {
        for x in 0..3 {
            full.push((x, y, 1));
        }
    }
    assert_eq!(grid_of(&full).get_free_position(), None);
}

const ORDER: &str = "{\n\"id\": 7,\n{\"product_type\": \"Red block\", \"total_product_amount\": 2},\n{\"product_type\": \"Blue block\", \"total_product_amount\": 1}\n}";

#[test]
fn read_order_totals_products() {
    assert_eq!(read_order(ORDER), Some(([2, 0, 0, 1], 7)));
    let twice = format!("{ORDER}\n{{\"product_type\": \"red block\", \"total_product_amount\":  3 }}");
    assert_eq!(read_order(&twice), Some(([5, 0, 0, 1], 7)));
}

#[test]
fn read_order_lowercases_the_colour() {
    let line: Vec<char> = "{\"product_type\": \"GREEN block\", \"total_product_amount\": 4}".chars().collect();
    assert_eq!(apply_order_line([0, 0, 0, 0], 3, &line), Some(([0, 0, 4, 0], 3)));
}

#[test]
fn read_order_errors() {
    let unknown = "{\"product_type\": \"Pink block\", \"total_product_amount\": 4}";
    assert_eq!(read_order(unknown), None);
    let no_block = "{\"product_type\": \"Red\", \"total_product_amount\": 4}";
    assert_eq!(read_order(no_block), None);
    let bad_id = "\"id\": seven,";
    assert_eq!(read_order(bad_id), None);
    let overflow = "{\"product_type\": \"Red block\", \"total_product_amount\": 65535}\n{\"product_type\": \"Red block\", \"total_product_amount\": 1}";
    assert_eq!(read_order(overflow), None);
    assert_eq!(read_order(""), Some(([0, 0, 0, 0], 0)));
}

#[test]
fn order_poll_replies() {
    assert_eq!(get_order_from_db("ORDSYS/1.0 NOT_READY".to_string()), None);
    assert_eq!(get_order_from_db("x".to_string()), Some("x".to_string()));
    assert_eq!(read_order_updates("ORDSYS/1.0 NOT_READY\n".to_string()), None);
    assert_eq!(read_order_updates(ORDER.to_string()), Some(([2, 0, 0, 1], 7)));
    assert_eq!(try_read_order_updates(ORDER.to_string()), Some(Some(([2, 0, 0, 1], 7))));
    assert_eq!(try_read_order_updates("ORDSYS/1.0 NOT_READY".to_string()), Some(None));
    assert_eq!(try_read_order_updates("\"id\": x,".to_string()), None);
    order_confirm_db(vec![]);
}
