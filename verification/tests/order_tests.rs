use warehouse::order::{Order, Position, ProductOrder};

fn product(name: &str, amount: u16) -> ProductOrder {
    ProductOrder { product_type: name.to_string(), total_product_amount: amount }
}

#[test]
fn product_totals_add_up_per_colour() {
    let order = Order {
        id: 3,
        amount: vec![
            product("Red block", 2),
            product("Blue block", 1),
            product("Red block", 3),
            product("Green block", 7),
            product("Yellow block", 4),
        ],
    };
    assert_eq!(order.product_totals(), [5, 4, 7, 1]);
    let empty = Order { id: 1, amount: vec![] };
    assert_eq!(empty.product_totals(), [0, 0, 0, 0]);
    let p = Position { x: 1, y: 2 };
    assert_eq!(p, Position { x: 1, y: 2 });
}
