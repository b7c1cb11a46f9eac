use order_book::order_book::{
    populate_tree, to_limits, AggregatedOrder, Book, FetchError, Limit, Order, OrderBookResponse, OrderType,
};
use order_book::tree::Tree;
use std::cmp::Ordering;

fn line(price: &str, size: &str, num_orders: usize) -> AggregatedOrder {
    AggregatedOrder { price: price.to_string(), size: size.to_string(), num_orders }
}

fn order(price: &str, size: &str) -> Order {
    Order::new(price.to_string(), size.to_string())
}

fn orders_of(limit: &Limit) -> Vec<(String, String)> {
    limit.orders().iter().map(|o| (o.price().clone(), o.size().clone())).collect()
}

fn prices(tree: &Tree<Limit>) -> Vec<String> {
    (0..tree.len()).map(|i| tree.at(Some(i)).unwrap().val.price().clone()).collect()
}

fn pair(price: &str, size: &str) -> (String, String) {
    (price.to_string(), size.to_string())
}

#[test]
fn one_bid_makes_one_level_with_its_orders() {
    let response = OrderBookResponse { bids: vec![line("100", "2", 2)], asks: vec![] };
    let book = Book::assemble(response);
    assert_eq!(book.buy_tree().len(), 1);
    assert_eq!(book.sell_tree().len(), 0);
    let node = book.buy_tree().at(Some(0)).unwrap();
    assert_eq!(node.parent_idx, None);
    assert_eq!(node.left_idx, None);
    assert_eq!(node.right_idx, None);
    assert_eq!(node.val.price(), "100");
    assert_eq!(orders_of(&node.val), vec![pair("100", "2"), pair("100", "2")]);
}

#[test]
fn to_limits_makes_one_level_for_each_line() {
    let limits = to_limits(vec![line("1", "0.5", 3), line("2", "7", 0), line("3", "9", 1)]);
    assert_eq!(limits.len(), 3);
    assert_eq!(limits[0].price(), "1");
    assert_eq!(orders_of(&limits[0]), vec![pair("1", "0.5"), pair("1", "0.5"), pair("1", "0.5")]);
    assert_eq!(limits[1].price(), "2");
    assert_eq!(orders_of(&limits[1]), vec![]);
    assert_eq!(limits[2].price(), "3");
    assert_eq!(orders_of(&limits[2]), vec![pair("3", "9")]);
}

#[test]
fn to_limits_of_nothing_is_nothing() {
    assert_eq!(to_limits(vec![]).len(), 0);
}

#[test]
fn populate_tree_balances_over_the_given_order() {
    let lines = (1..=6).map(|p| line(&p.to_string(), "1", 1)).collect();
    let tree = populate_tree(lines);
    assert_eq!(prices(&tree), vec!["4", "2", "1", "3", "6", "5"]);
    let root = tree.at(Some(0)).unwrap();
    assert_eq!((root.left_idx, root.right_idx, root.parent_idx), (Some(1), Some(4), None));
    let last = tree.at(Some(4)).unwrap();
    assert_eq!((last.left_idx, last.right_idx, last.parent_idx), (Some(5), None, Some(0)));
}

#[test]
fn assemble_keeps_the_sides_apart() {
    let response = OrderBookResponse {
        bids: vec![line("10", "1", 1), line("11", "1", 2), line("12", "1", 3)],
        asks: vec![line("20", "4", 1), line("21", "5", 1)],
    };
    let book = Book::assemble(response);
    assert_eq!(prices(book.buy_tree()), vec!["11", "10", "12"]);
    assert_eq!(prices(book.sell_tree()), vec!["21", "20"]);
    assert_eq!(book.buy_tree().at(Some(2)).unwrap().val.orders().len(), 3);
    assert_eq!(orders_of(&book.sell_tree().at(Some(1)).unwrap().val), vec![pair("20", "4")]);
}

#[test]
fn a_failed_fetch_gives_no_book() {
    for error in [FetchError::Network, FetchError::Status(503), FetchError::Status(404), FetchError::Decode] {
        match Book::from_fetch(Err(error)) {
            Ok(_) => panic!("a book came out of a failure"),
            Err(got) => assert_eq!(got, error),
        }
    }
}

#[test]
fn a_fetched_snapshot_gives_its_book() {
    let response = OrderBookResponse { bids: vec![line("100", "2", 2)], asks: vec![line("101", "1", 1)] };
    let book = Book::from_fetch(Ok(response)).unwrap();
    assert_eq!(prices(book.buy_tree()), vec!["100"]);
    assert_eq!(prices(book.sell_tree()), vec!["101"]);
}

#[test]
fn add_to_an_empty_book_makes_the_first_level() {
    let mut book = Book::assemble(OrderBookResponse { bids: vec![], asks: vec![] });
    book.add(OrderType::Sell, order("100", "2"));
    assert_eq!(book.buy_tree().len(), 0);
    assert_eq!(book.sell_tree().len(), 1);
    let node = book.sell_tree().at(Some(0)).unwrap();
    assert_eq!((node.idx, node.left_idx, node.right_idx, node.parent_idx), (0, None, None, None));
    assert_eq!(orders_of(&node.val), vec![pair("100", "2")]);
}

#[test]
fn add_at_a_known_price_joins_the_level() {
    let mut book = Book::assemble(OrderBookResponse { bids: vec![line("100", "2", 2)], asks: vec![] });
    book.add(OrderType::Buy, order("100", "5"));
    assert_eq!(book.buy_tree().len(), 1);
    let node = book.buy_tree().at(Some(0)).unwrap();
    assert_eq!(orders_of(&node.val), vec![pair("100", "2"), pair("100", "2"), pair("100", "5")]);
}

#[test]
fn add_twice_at_one_price_makes_one_level() {
    let mut book = Book::assemble(OrderBookResponse { bids: vec![], asks: vec![] });
    book.add(OrderType::Buy, order("300", "1"));
    book.add(OrderType::Buy, order("200", "2"));
    assert_eq!(book.buy_tree().len(), 2);
    book.add(OrderType::Buy, order("200", "3"));
    assert_eq!(book.buy_tree().len(), 2);
    book.add(OrderType::Buy, order("200", "4"));
    assert_eq!(book.buy_tree().len(), 2);
    let level = &book.buy_tree().at(Some(1)).unwrap().val;
    assert_eq!(level.price(), "200");
    assert_eq!(orders_of(level), vec![pair("200", "2"), pair("200", "3"), pair("200", "4")]);
    assert_eq!(orders_of(&book.buy_tree().at(Some(0)).unwrap().val), vec![pair("300", "1")]);
}

#[test]
fn add_places_levels_by_the_text_of_their_prices() {
    let mut book = Book::assemble(OrderBookResponse { bids: vec![], asks: vec![] });
    book.add(OrderType::Buy, order("5", "1"));
    // as text "10" comes before "5": the stored level is not less, so the new one goes right
    book.add(OrderType::Buy, order("10", "1"));
    // "9" comes after "5": the stored level is less, so the new one goes left
    book.add(OrderType::Buy, order("9", "1"));
    assert_eq!(prices(book.buy_tree()), vec!["5", "10", "9"]);
    let root = book.buy_tree().at(Some(0)).unwrap();
    assert_eq!((root.left_idx, root.right_idx), (Some(2), Some(1)));
    assert_eq!(book.buy_tree().at(Some(1)).unwrap().parent_idx, Some(0));
    assert_eq!(book.buy_tree().at(Some(2)).unwrap().parent_idx, Some(0));
}

#[test]
fn limits_compare_by_the_text_of_their_prices() {
    let ten = Limit::new("10".to_string());
    let nine = Limit::new("9".to_string());
    let also_nine = Limit::new("9".to_string());
    let ninety = Limit::new("90".to_string());
    let none = Limit::new(String::new());
    assert!(ten < nine);
    assert!(nine > ten);
    assert!(nine < ninety);
    assert!(none < ten);
    assert!(nine == also_nine);
    assert!(nine != ninety);
    assert_eq!(ten.partial_cmp(&nine), Some(Ordering::Less));
    assert_eq!(nine.partial_cmp(&ten), Some(Ordering::Greater));
    assert_eq!(nine.partial_cmp(&also_nine), Some(Ordering::Equal));
    assert_eq!(ninety.partial_cmp(&nine), Some(Ordering::Greater));
    assert_eq!(none.partial_cmp(&none), Some(Ordering::Equal));
    // by code point, not by byte count: U+00E9 (two bytes) before U+4E2D (three bytes)
    let e_acute = Limit::new("\u{e9}".to_string());
    let zhong = Limit::new("\u{4e2d}".to_string());
    assert_eq!(e_acute.partial_cmp(&zhong), Some(Ordering::Less));
    assert_eq!(Limit::new("z".to_string()).partial_cmp(&e_acute), Some(Ordering::Less));
}

#[test]
fn limits_are_equal_whatever_orders_they_hold() {
    let mut tree: Tree<Limit> = Tree::new();
    tree.add(Limit::new("7".to_string()), 0);
    let limits = to_limits(vec![line("7", "1", 4)]);
    assert!(limits[0] == Limit::new("7".to_string()));
    let found = tree.add(limits[0].clone(), 0);
    assert_eq!(found.orders().len(), 0);
    assert_eq!(tree.len(), 1);
}

#[test]
fn clones_keep_price_and_orders() {
    let limits = to_limits(vec![line("7", "1.5", 2)]);
    let copy = limits[0].clone();
    assert_eq!(copy.price(), "7");
    assert_eq!(orders_of(&copy), vec![pair("7", "1.5"), pair("7", "1.5")]);
    let o = order("3", "4");
    let c = o.clone();
    assert_eq!((c.price().as_str(), c.size().as_str()), ("3", "4"));
}

#[test]
fn add_finds_the_levels_of_a_falling_load() {
    let response = OrderBookResponse {
        bids: vec![line("5", "1", 1), line("4", "1", 1), line("3", "1", 1), line("2", "1", 1), line("1", "1", 1)],
        asks: vec![],
    };
    let mut book = Book::assemble(response);
    assert_eq!(prices(book.buy_tree()), vec!["3", "4", "5", "1", "2"]);
    for price in ["1", "2", "3", "4", "5"] {
        book.add(OrderType::Buy, order(price, "9"));
    }
    assert_eq!(book.buy_tree().len(), 5);
    for i in 0..5 {
        let level = &book.buy_tree().at(Some(i)).unwrap().val;
        assert_eq!(orders_of(level), vec![pair(level.price(), "1"), pair(level.price(), "9")]);
    }
}

#[test]
fn add_misses_the_levels_of_a_rising_load() {
    let response = OrderBookResponse { bids: vec![], asks: vec![line("20", "4", 1), line("21", "5", 1)] };
    let mut book = Book::assemble(response);
    assert_eq!(prices(book.sell_tree()), vec!["21", "20"]);
    // from "21" the walk goes right for the lesser "20", where the load put nothing
    book.add(OrderType::Sell, order("20", "7"));
    assert_eq!(prices(book.sell_tree()), vec!["21", "20", "20"]);
    let root = book.sell_tree().at(Some(0)).unwrap();
    assert_eq!((root.left_idx, root.right_idx), (Some(1), Some(2)));
    assert_eq!(orders_of(&book.sell_tree().at(Some(1)).unwrap().val), vec![pair("20", "4")]);
    assert_eq!(orders_of(&book.sell_tree().at(Some(2)).unwrap().val), vec![pair("20", "7")]);
}

#[test]
fn every_level_holds_orders_at_its_own_price() {
    let response = OrderBookResponse {
        bids: vec![line("30", "1", 2), line("20", "1", 1), line("10", "1", 3)],
        asks: vec![line("40", "2", 1)],
    };
    let mut book = Book::assemble(response);
    for (side, price) in [
        (OrderType::Buy, "20"),
        (OrderType::Buy, "25"),
        (OrderType::Sell, "40"),
        (OrderType::Sell, "41"),
        (OrderType::Buy, "25"),
    ] {
        book.add(side, order(price, "5"));
    }
    for tree in [book.buy_tree(), book.sell_tree()] {
        for i in 0..tree.len() {
            let node = tree.at(Some(i)).unwrap();
            assert!(node.val.orders().iter().all(|o| o.price() == node.val.price()));
            match node.parent_idx {
                None => assert_eq!(i, 0),
                Some(p) => {
                    let above = tree.at(Some(p)).unwrap();
                    assert!(above.left_idx == Some(i) || above.right_idx == Some(i));
                }
            }
        }
    }
    assert_eq!(book.buy_tree().len(), 4);
    assert_eq!(book.sell_tree().len(), 2);
}
