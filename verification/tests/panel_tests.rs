use warehouse::graphic::{init, submit_order, try_submit_order, PANEL_ORDER_ID};
use warehouse::server::{Grid, Position};

fn grid_of(cells: &[(usize, usize, u8)]) -> Grid {
    let mut reply = String::from("h1\nh2\nh3\n");
    for &(x, y, c) in cells {
        reply.push_str(&format!(
            " \" position_x\": {x} , \" position_y\": {y} , \"product_type_id\": {c} ,]\n"
        ));
    }
    Grid::try_new(&reply).unwrap()
}

#[test]
fn submit_with_all_fields_empty_does_nothing() {
    init();
    let g = grid_of(&[(0, 0, 1)]);
    assert!(submit_order(&g, "", "", "", "").is_none());
    assert!(matches!(try_submit_order(&g, "", "", "", ""), Some(None)));
}

#[test]
fn submit_sends_positions_when_counts_suffice() {
    // get_free reports (empty, red, yellow, green) = (13, 1, 1, 0)
    let g = grid_of(&[(0, 0, 1), (1, 0, 2)]);
    let (id, positions) = submit_order(&g, "0", "1", "0", "0").unwrap();
    assert_eq!(id, PANEL_ORDER_ID);
    assert_eq!(id, 10);
    // asks one yellow block: the yellow cell
    assert_eq!(positions, vec![Position { position_x: 1, position_y: 0 }]);
    // asks more yellow than there are red cells: nothing is sent
    assert!(submit_order(&g, "0", "2", "0", "0").is_none());
    // blue is compared with the green cells
    assert!(submit_order(&g, "0", "0", "0", "1").is_none());
}

#[test]
fn submit_panics_become_none() {
    let g = grid_of(&[(0, 0, 1)]);
    assert!(try_submit_order(&g, "x", "0", "0", "0").is_none());
    assert!(try_submit_order(&g, "1", "", "0", "0").is_none());
    let blue = grid_of(&[(0, 0, 4)]);
    assert!(try_submit_order(&blue, "0", "0", "0", "0").is_none());
    assert!(matches!(try_submit_order(&blue, "", "", "", ""), Some(None)));
}
