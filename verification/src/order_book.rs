//! The order book: two arena trees of price levels, one for each side.
//!
//! A book is assembled from a snapshot of aggregated price levels, each side
//! loaded into a tree of its own in one balanced pass; single orders can be
//! merged in afterwards. Prices and sizes are kept as the text they arrived
//! in, and price levels are ordered by that text (see [`text_lt`]), not by the
//! numbers it spells.
//!
//! A merge looks for the level of its price by a walk from the first node that
//! goes left for greater prices. It finds the levels of a side that was loaded
//! in falling order of price, and those that earlier merges made.

use crate::bulk_load::{balanced, lemma_balanced_len, lemma_balanced_map, lemma_balanced_stores_given};
use crate::insertion::{
    grown, holding, landing, lemma_grown_keeps_form, lemma_grown_map, lemma_holding_map,
    lemma_landing_in_range, lemma_walk_ends, lemma_walk_returns, step_toward, through, toward, Step,
};
use crate::text::{compare_text, text_lt, text_order};
use crate::tree::{lemma_map_keeps_links, map_vals, one_tree, well_formed, Node, Tree};
use std::cmp::Ordering;
use vstd::prelude::*;
use vstd::std_specs::cmp::{PartialEqSpec, PartialOrdIs};

verus! {

/// What an [`Order`] is, as plain text.
pub struct OrderView {
    pub price: Seq<char>,
    pub size: Seq<char>,
}

/// What a [`Limit`] is: the price of the level and the orders resting there,
/// oldest first.
pub struct LimitView {
    pub price: Seq<char>,
    pub orders: Seq<OrderView>,
}

/// One resting order.
#[derive(Debug)]
pub struct Order {
    price: String,
    size: String,
}

impl View for Order {
    type V = OrderView;

    closed spec fn view(&self) -> OrderView {
        OrderView { price: self.price@, size: self.size@ }
    }
}

impl Clone for Order {
    fn clone(&self) -> (copy: Self)
        ensures
            copy == *self,
    {
        Order { price: self.price.clone(), size: self.size.clone() }
    }
}

impl Order {
    /// An order of `size` at `price`.
    pub fn new(price: String, size: String) -> (order: Order)
        ensures
            order@ == (OrderView { price: price@, size: size@ }),
    {
        Order { price, size }
    }

    /// The price the order rests at.
    pub fn price(&self) -> (price: &String)
        ensures
            price@ == self@.price,
    {
        &self.price
    }

    /// The size of the order.
    pub fn size(&self) -> (size: &String)
        ensures
            size@ == self@.size,
    {
        &self.size
    }
}

/// The views of `orders`, in the same order.
pub open spec fn order_views(orders: Seq<Order>) -> Seq<OrderView> {
    orders.map_values(|o: Order| o@)
}

/// A price level: all the orders resting at one price.
///
/// Two limits are equal when their prices are the same text, and they are
/// ordered as their prices are, whatever orders they hold.
#[derive(Debug)]
pub struct Limit {
    price: String,
    orders: Vec<Order>,
}

impl View for Limit {
    type V = LimitView;

    closed spec fn view(&self) -> LimitView {
        LimitView { price: self.price@, orders: order_views(self.orders@) }
    }
}

impl Clone for Limit {
    fn clone(&self) -> (copy: Self)
        ensures
            copy@ == self@,
    {
        let copy = Limit { price: self.price.clone(), orders: self.orders.clone() };
        proof {
            assert(order_views(copy.orders@) =~= order_views(self.orders@));
        }
        copy
    }
}

impl PartialEq for Limit {
    fn eq(&self, other: &Self) -> (same: bool) {
        self.price == other.price
    }
}

impl vstd::std_specs::cmp::PartialEqSpecImpl for Limit {
    open spec fn obeys_eq_spec() -> bool {
        true
    }

    open spec fn eq_spec(&self, other: &Self) -> bool {
        self@.price == other@.price
    }
}

impl Eq for Limit {

}

impl PartialOrd for Limit {
    fn partial_cmp(&self, other: &Self) -> (order: Option<Ordering>) {
        Some(compare_text(&self.price, &other.price))
    }
}

impl vstd::std_specs::cmp::PartialOrdSpecImpl for Limit {
    open spec fn obeys_partial_cmp_spec() -> bool {
        true
    }

    open spec fn partial_cmp_spec(&self, other: &Self) -> Option<Ordering> {
        Some(text_order(self@.price, other@.price))
    }
}

impl Limit {
    /// A level at `price` with no orders yet.
    pub fn new(price: String) -> (limit: Limit)
        ensures
            limit@ == (LimitView { price: price@, orders: Seq::empty() }),
    {
        let limit = Limit { price, orders: Vec::new() };
        proof {
            assert(order_views(limit.orders@) =~= Seq::empty());
        }
        limit
    }

    /// The price of the level.
    pub fn price(&self) -> (price: &String)
        ensures
            price@ == self@.price,
    {
        &self.price
    }

    /// The orders resting at the level, oldest first.
    pub fn orders(&self) -> (orders: &Vec<Order>)
        ensures
            order_views(orders@) == self@.orders,
    {
        &self.orders
    }
}

/// One line of a snapshot: all the orders resting at one price, summed up as
/// one size and a count.
#[derive(Debug)]
pub struct AggregatedOrder {
    pub price: String,
    pub size: String,
    pub num_orders: usize,
}

/// A decoded snapshot of the book: the aggregated levels of each side.
#[derive(Debug)]
pub struct OrderBookResponse {
    pub bids: Vec<AggregatedOrder>,
    pub asks: Vec<AggregatedOrder>,
}

/// Why no snapshot could be had.
#[derive(Debug, Clone, Copy, PartialEq, Eq, Structural)]
pub enum FetchError {
    /// The source could not be reached.
    Network,
    /// The source answered with this status, which is not a success.
    Status(u16),
    /// The answer was not a snapshot of the expected shape.
    Decode,
}

/// The side of the book that an order rests on.
#[derive(Debug, Clone, Copy, PartialEq, Eq, Structural)]
pub enum OrderType {
    Buy,
    Sell,
}

/// The level that a snapshot line stands for: its price, and as many orders
/// as the line counts.
///
/// A snapshot does not say how large each order is, so every order is given
/// the size of the whole level. The sizes are a stand-in, not the truth.
pub open spec fn level_of(record: AggregatedOrder) -> LimitView {
    LimitView {
        price: record.price@,
        orders: Seq::new(
            record.num_orders as nat,
            |i: int| OrderView { price: record.price@, size: record.size@ },
        ),
    }
}

/// The levels that the lines of a snapshot stand for, in the same order.
pub open spec fn levels_of(records: Seq<AggregatedOrder>) -> Seq<LimitView> {
    records.map_values(|r: AggregatedOrder| level_of(r))
}

/// The views of `limits`, in the same order.
pub open spec fn limit_views(limits: Seq<Limit>) -> Seq<LimitView> {
    limits.map_values(|l: Limit| l@)
}

/// The nodes of a tree of limits, each limit taken by its view.
pub open spec fn levels(nodes: Seq<Node<Limit>>) -> Seq<Node<LimitView>> {
    map_vals(nodes, |l: Limit| l@)
}

/// How the search for the level at `price` treats each level it meets: it
/// stops at the level with that very price, goes left from a level whose
/// price comes before `price` in the order of texts, and right otherwise.
pub open spec fn toward_price(price: Seq<char>) -> spec_fn(LimitView) -> Step {
    |level: LimitView|
        if level.price == price {
            Step::Here
        } else if text_lt(level.price, price) {
            Step::Left
        } else {
            Step::Right
        }
}

/// One side of the book after `order` has been merged in: the order joins the
/// end of the level at its price, which is found by a walk from the first node
/// or, where there is no such level yet, appended with no orders of its own.
pub open spec fn with_order(side: Seq<Node<LimitView>>, order: OrderView) -> Seq<Node<LimitView>> {
    let route = toward_price(order.price);
    let after = grown(side, route, 0, LimitView { price: order.price, orders: Seq::empty() });
    let at = landing(side, route, 0);
    holding(
        after,
        at,
        LimitView { price: after[at].val.price, orders: after[at].val.orders.push(order) },
    )
}

/// Every order of the level rests at the level's price.
pub open spec fn aggregates(level: LimitView) -> bool {
    forall|k: int| 0 <= k < level.orders.len() ==> (#[trigger] level.orders[k]).price == level.price
}

/// Every level of the side holds orders at its own price only.
pub open spec fn priced(side: Seq<Node<LimitView>>) -> bool {
    forall|i: int| 0 <= i < side.len() ==> aggregates((#[trigger] side[i]).val)
}

/// Turns the lines of a snapshot into price levels, one for each line, each
/// with as many orders as its line counts. The orders are made up from the
/// line, see [`level_of`]: each carries the size of the whole level.
pub fn to_limits(orders: Vec<AggregatedOrder>) -> (limits: Vec<Limit>)
    ensures
        limit_views(limits@) == levels_of(orders@),
{
    let mut limits: Vec<Limit> = Vec::new();
    let mut i: usize = 0;
    while i < orders.len()
        invariant
            i <= orders.len(),
            limits@.len() == i,
            forall|j: int| 0 <= j < i ==> (#[trigger] limits@[j])@ == level_of(orders@[j]),
        decreases orders.len() - i,
    {
        let n = &orders[i];
        let os = vec![Order { price: n.price.clone(), size: n.size.clone() }; n.num_orders];
        let limit = Limit { price: n.price.clone(), orders: os };
        proof {
            assert(limit@.orders =~= level_of(*n).orders);
        }
        limits.push(limit);
        i += 1;
    }
    proof {
        assert(limit_views(limits@) =~= levels_of(orders@));
    }
    limits
}

/// Loads the lines of one side of a snapshot, which come sorted by price,
/// into a balanced tree of price levels.
pub fn populate_tree(orders: Vec<AggregatedOrder>) -> (tree: Tree<Limit>)
    ensures
        levels(tree@) == balanced(levels_of(orders@), None, 0),
        one_tree(tree@),
        priced(levels(tree@)),
{
    let ghost records = orders@;
    let limits = to_limits(orders);
    let mut tree: Tree<Limit> = Tree::new();
    tree.populate_from_sorted(None, limits.as_slice());
    proof {
        let plan = balanced(limits@, None, 0);
        let view = |l: Limit| l@;
        assert(tree@.skip(0) =~= tree@);
        assert(levels(tree@) =~= map_vals(plan, view)) by {
            assert forall|j: int| 0 <= j < plan.len() implies levels(tree@)[j] == map_vals(
                plan,
                view,
            )[j] by {
                assert(tree@[j].val@ == plan[j].val@);
            }
        }
        lemma_balanced_map(limits@, view, None, 0);
        assert(limits@.map_values(view) == levels_of(records));
        lemma_balanced_len(levels_of(records), None, 0);
        lemma_balanced_stores_given(levels_of(records), None, 0, |level: LimitView| aggregates(level));
    }
    tree
}

/// Merging an order into a tree of limits, seen through the views: the walk
/// that compares limits is the walk that compares prices.
proof fn lemma_merge(nodes: Seq<Node<Limit>>, probe: Limit, order: OrderView, kept: Limit)
    requires
        probe@ == (LimitView { price: order.price, orders: Seq::empty() }),
        kept@ == ({
            let after = grown(nodes, step_toward(probe), 0, probe);
            let found = after[landing(nodes, step_toward(probe), 0)].val@;
            LimitView { price: found.price, orders: found.orders.push(order) }
        }),
    ensures
        levels(
            holding(
                grown(nodes, step_toward(probe), 0, probe),
                landing(nodes, step_toward(probe), 0),
                kept,
            ),
        ) == with_order(levels(nodes), order),
{
    let view = |l: Limit| l@;
    let route = toward_price(order.price);
    lemma_same_route(probe, order.price);
    let after = grown(nodes, step_toward(probe), 0, probe);
    let at = landing(nodes, step_toward(probe), 0);
    lemma_grown_map(nodes, view, route, 0, probe);
    lemma_landing_in_range(nodes, step_toward(probe), 0, probe);
    lemma_holding_map(after, view, at, kept);
    assert(map_vals(after, view)[at].val == after[at].val@);
}

/// Limits are compared by their prices alone, so the route toward a limit is
/// the route toward its price.
proof fn lemma_same_route(probe: Limit, price: Seq<char>)
    requires
        probe@.price == price,
    ensures
        step_toward(probe) == through(|l: Limit| l@, toward_price(price)),
{
    let view = |l: Limit| l@;
    assert forall|stored: Limit| #[trigger]
        step_toward(probe)(stored) == through(view, toward_price(price))(stored) by {
        assert(stored.eq_spec(&probe) == (stored@.price == price));
        assert(stored.is_lt(&probe) == (stored@.price != price && text_lt(stored@.price, price)));
    }
    assert(step_toward(probe) =~= through(view, toward_price(price)));
}

/// Two orders at the same price rest at the same level: merging the second
/// makes no new node, and the level's list of orders grows by exactly one
/// entry with each of them, in the order in which they came.
pub proof fn lemma_same_price_same_level(side: Seq<Node<LimitView>>, first: OrderView, second: OrderView)
    requires
        well_formed(side),
        side.len() < usize::MAX,
        first.price == second.price,
    ensures
        ({
            let at = landing(side, toward_price(first.price), 0);
            let once = with_order(side, first);
            let twice = with_order(once, second);
            let before = if at < side.len() {
                side[at].val.orders
            } else {
                Seq::empty()
            };
            &&& twice.len() == once.len()
            &&& landing(once, toward_price(second.price), 0) == at
            &&& once[at].val.orders == before.push(first)
            &&& twice[at].val.orders == before.push(first).push(second)
            &&& forall|i: int| 0 <= i < once.len() && i != at ==> twice[i] == once[i]
        }),
{
    let route = toward_price(first.price);
    let fresh = LimitView { price: first.price, orders: Seq::empty() };
    let after = grown(side, route, 0, fresh);
    let at = landing(side, route, 0);
    let kept = LimitView { price: after[at].val.price, orders: after[at].val.orders.push(first) };
    let once = with_order(side, first);
    lemma_landing_in_range(side, route, 0, fresh);
    if side.len() > 0 {
        lemma_walk_ends(side, route, 0);
        assert(kept.price == first.price);
        lemma_walk_returns(side, route, 0, fresh, kept);
    } else {
        assert(toward(once[0], route(kept)) is None);
    }
    assert(grown(once, route, 0, LimitView { price: second.price, orders: Seq::empty() }) == once);
}

/// Merging an order leaves every level with orders at its own price only.
pub proof fn lemma_with_order_keeps_prices(side: Seq<Node<LimitView>>, order: OrderView)
    requires
        well_formed(side),
        priced(side),
    ensures
        priced(with_order(side, order)),
{
    let route = toward_price(order.price);
    let fresh = LimitView { price: order.price, orders: Seq::empty() };
    let after = grown(side, route, 0, fresh);
    let at = landing(side, route, 0);
    let merged = with_order(side, order);
    lemma_landing_in_range(side, route, 0, fresh);
    if side.len() > 0 {
        lemma_walk_ends(side, route, 0);
    }
    assert forall|i: int| 0 <= i < merged.len() implies aggregates((#[trigger] merged[i]).val) by {
        if i == at {
            assert(after[at].val.price == order.price);
            if at < side.len() {
                assert(aggregates(side[at].val));
            }
        } else if i < side.len() {
            assert(aggregates(side[i].val));
            assert(merged[i].val == side[i].val);
        }
    }
}

/// Merging an order leaves a side one tree.
pub proof fn lemma_with_order_keeps_form(side: Seq<Node<LimitView>>, order: OrderView)
    requires
        one_tree(side),
        side.len() < usize::MAX,
    ensures
        one_tree(with_order(side, order)),
{
    let route = toward_price(order.price);
    let fresh = LimitView { price: order.price, orders: Seq::empty() };
    let after = grown(side, route, 0, fresh);
    let at = landing(side, route, 0);
    lemma_grown_keeps_form(
        side,
        route,
        0,
        fresh,
        LimitView { price: after[at].val.price, orders: after[at].val.orders.push(order) },
    );
}

/// The two sides of a book, each as the nodes of its tree of price levels.
pub struct BookView {
    pub buy: Seq<Node<LimitView>>,
    pub sell: Seq<Node<LimitView>>,
}

impl BookView {
    /// On each side the nodes form one tree, see [`one_tree`], and each level
    /// holds the orders that rest at its price and no others.
    pub open spec fn wf(self) -> bool {
        &&& one_tree(self.buy)
        &&& one_tree(self.sell)
        &&& priced(self.buy)
        &&& priced(self.sell)
    }

    /// The book after `order` has been merged into the side that `order_type`
    /// names; the other side stays as it is.
    pub open spec fn with_order(self, order_type: OrderType, order: OrderView) -> BookView {
        match order_type {
            OrderType::Buy => BookView { buy: with_order(self.buy, order), sell: self.sell },
            OrderType::Sell => BookView { buy: self.buy, sell: with_order(self.sell, order) },
        }
    }

    /// A book stays what a book is, whatever order is merged into it: the
    /// first node of each side is still the only one without a parent, every
    /// other node is still the left or right child of the node it names as
    /// its parent, and every level still holds orders at its own price only.
    pub proof fn lemma_with_order_keeps_book(self, order_type: OrderType, order: OrderView)
        requires
            self.wf(),
            self.buy.len() < usize::MAX,
            self.sell.len() < usize::MAX,
        ensures
            self.with_order(order_type, order).wf(),
    {
        match order_type {
            OrderType::Buy => {
                lemma_with_order_keeps_form(self.buy, order);
                lemma_with_order_keeps_prices(self.buy, order);
            },
            OrderType::Sell => {
                lemma_with_order_keeps_form(self.sell, order);
                lemma_with_order_keeps_prices(self.sell, order);
            },
        }
    }
}

/// The order book: the buy side and the sell side, each a tree of price
/// levels that knows nothing of the other.
#[derive(Debug)]
pub struct Book {
    buy_tree: Tree<Limit>,
    sell_tree: Tree<Limit>,
}

impl View for Book {
    type V = BookView;

    closed spec fn view(&self) -> BookView {
        BookView { buy: levels(self.buy_tree@), sell: levels(self.sell_tree@) }
    }
}

impl Book {
    /// What holds of every book, see [`BookView::wf`].
    pub open spec fn wf(&self) -> bool {
        self@.wf()
    }

    /// Builds the book that a snapshot describes: each side is loaded into a
    /// fresh tree, balanced over the order in which its levels came.
    pub fn assemble(response: OrderBookResponse) -> (book: Book)
        ensures
            book@.buy == balanced(levels_of(response.bids@), None, 0),
            book@.sell == balanced(levels_of(response.asks@), None, 0),
            book.wf(),
    {
        let buy_tree = populate_tree(response.bids);
        let sell_tree = populate_tree(response.asks);
        proof {
            lemma_map_keeps_links(buy_tree@, |l: Limit| l@);
            lemma_map_keeps_links(sell_tree@, |l: Limit| l@);
        }
        Book { buy_tree, sell_tree }
    }

    /// Builds the book from what an attempt to fetch a snapshot gave: the book
    /// of the snapshot, or the very failure of the attempt. A failure never
    /// yields a book, not even an empty one.
    pub fn from_fetch(fetched: Result<OrderBookResponse, FetchError>) -> (outcome: Result<Book, FetchError>)
        ensures
            match fetched {
                Ok(response) => outcome matches Ok(book) && book@.buy == balanced(
                    levels_of(response.bids@),
                    None,
                    0,
                ) && book@.sell == balanced(levels_of(response.asks@), None, 0) && book.wf(),
                Err(error) => outcome == Err::<Book, FetchError>(error),
            },
    {
        match fetched {
            Ok(response) => Ok(Book::assemble(response)),
            Err(error) => Err(error),
        }
    }

    /// The buy side.
    pub fn buy_tree(&self) -> (tree: &Tree<Limit>)
        ensures
            levels(tree@) == self@.buy,
    {
        &self.buy_tree
    }

    /// The sell side.
    pub fn sell_tree(&self) -> (tree: &Tree<Limit>)
        ensures
            levels(tree@) == self@.sell,
    {
        &self.sell_tree
    }

    /// Merges one resting order into the book, at the level of its price on
    /// the side that `order_type` names. A level is made only where none at
    /// that price is found.
    pub fn add(&mut self, order_type: OrderType, order: Order)
        requires
            old(self).wf(),
        ensures
            final(self)@ == old(self)@.with_order(order_type, order@),
            final(self).wf(),
    {
        proof {
            lemma_map_keeps_links(self.buy_tree@, |l: Limit| l@);
            lemma_map_keeps_links(self.sell_tree@, |l: Limit| l@);
        }
        let ghost before = match order_type {
            OrderType::Buy => self.buy_tree@,
            OrderType::Sell => self.sell_tree@,
        };
        let target = match order_type {
            OrderType::Buy => &mut self.buy_tree,
            OrderType::Sell => &mut self.sell_tree,
        };

        let limit = Limit { price: order.price.clone(), orders: Vec::new() };
        let ghost probe = limit;
        let l = target.add(limit, 0);
        let ghost found = *l;
        l.orders.push(order);
        proof {
            let kept = *l;
            assert(order_views(probe.orders@) =~= Seq::empty());
            assert(order_views(kept.orders@) =~= order_views(found.orders@).push(order@));
            lemma_merge(before, probe, order@, kept);
            lemma_with_order_keeps_prices(levels(before), order@);
            lemma_map_keeps_links(
                holding(
                    grown(before, step_toward(probe), 0, probe),
                    landing(before, step_toward(probe), 0),
                    kept,
                ),
                |l: Limit| l@,
            );
        }
    }
}

} // verus!
