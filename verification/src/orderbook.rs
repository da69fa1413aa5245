use std::collections::HashMap;
use vstd::prelude::*;

verus! {

broadcast use vstd::std_specs::hash::group_hash_axioms;

/// The side of an order: buy interest (`Bid`) or sell interest (`Ask`).
#[derive(Clone, Copy, PartialEq, Eq, Structural, Debug)]
pub enum BidOrAsk {
    Bid,
    Ask,
}

/// One order: an opaque identity, the side it was placed on, and the
/// quantity still unfilled.  Quantities are integer minimum units, so
/// "filled" is the exact test `size == 0`.
#[derive(Clone, Copy, PartialEq, Eq, Structural, Debug)]
pub struct Order {
    pub id: u128,
    pub size: u64,
    pub bid_or_ask: BidOrAsk,
}

/// Relies on `uuid::Uuid::new_v4` (with `Uuid::as_u128`) for a fresh random
/// 128-bit order identity; nothing can be promised of a random value.
#[verifier::external_body]
fn fresh_order_id() -> u128 {
    uuid::Uuid::new_v4().as_u128()
}

impl Order {
    /// A new order on the given side for the given quantity, under a fresh
    /// random identity.
    pub fn new(bid_or_ask: BidOrAsk, size: u64) -> (r: Order)
        ensures
            r.bid_or_ask == bid_or_ask,
            r.size == size,
    {
        Order { bid_or_ask, size, id: fresh_order_id() }
    }

    /// An order is filled exactly when nothing of it remains.
    pub fn is_filled(&self) -> (r: bool)
        ensures
            r == (self.size == 0),
    {
        self.size == 0
    }
}

/// The quantity resting in a queue of orders: the sum of the remaining sizes.
pub open spec fn volume(orders: Seq<Order>) -> int
    decreases orders.len(),
{
    if orders.len() == 0 {
        0
    } else {
        orders[0].size + volume(orders.skip(1))
    }
}

pub proof fn lemma_volume_concat(s1: Seq<Order>, s2: Seq<Order>)
    ensures
        volume(s1 + s2) == volume(s1) + volume(s2),
    decreases s1.len(),
{
    if s1.len() == 0 {
        assert(s1 + s2 =~= s2);
    } else {
        assert((s1 + s2).skip(1) =~= s1.skip(1) + s2);
        lemma_volume_concat(s1.skip(1), s2);
    }
}

pub proof fn lemma_volume_push(s: Seq<Order>, o: Order)
    ensures
        volume(s.push(o)) == volume(s) + o.size,
    decreases s.len(),
{
    assert(volume(s.push(o)) == s.push(o)[0].size + volume(s.push(o).skip(1)));
    if s.len() == 0 {
        assert(s.push(o).skip(1) =~= Seq::<Order>::empty());
        assert(s.push(o)[0] == o);
        assert(volume(Seq::<Order>::empty()) == 0);
    } else {
        assert(s.push(o).skip(1) =~= s.skip(1).push(o));
        assert(s.push(o)[0] == s[0]);
        lemma_volume_push(s.skip(1), o);
    }
}

pub proof fn lemma_volume_bounds(s: Seq<Order>)
    ensures
        0 <= volume(s) <= s.len() * (u64::MAX as int),
    decreases s.len(),
{
    if s.len() == 0 {
    } else {
        lemma_volume_bounds(s.skip(1));
        assert((s.len() - 1) * (u64::MAX as int) + (u64::MAX as int) == s.len() * (
        u64::MAX as int)) by (nonlinear_arith);
    }
}

/// The queue after it absorbed a market quantity `m`, head to tail: a resting
/// order is drained to zero while `m` covers it; the first order `m` cannot
/// cover keeps the difference and everything behind it is untouched.
pub open spec fn orders_after_fill(orders: Seq<Order>, m: int) -> Seq<Order>
    decreases orders.len(),
{
    if orders.len() == 0 {
        orders
    } else if m >= orders[0].size {
        seq![Order { size: 0, ..orders[0] }] + orders_after_fill(
            orders.skip(1),
            m - orders[0].size,
        )
    } else {
        seq![Order { size: (orders[0].size - m) as u64, ..orders[0] }] + orders.skip(1)
    }
}

/// What remains of a market quantity `m` after the queue absorbed what it
/// could.
pub open spec fn remaining_after(orders: Seq<Order>, m: int) -> int
    decreases orders.len(),
{
    if orders.len() == 0 {
        m
    } else if m >= orders[0].size {
        remaining_after(orders.skip(1), m - orders[0].size)
    } else {
        0
    }
}

pub proof fn lemma_fill_zero(s: Seq<Order>)
    ensures
        orders_after_fill(s, 0) == s,
        remaining_after(s, 0) == 0,
    decreases s.len(),
{
    if s.len() > 0 {
        lemma_fill_zero(s.skip(1));
        if 0 >= s[0].size {
            assert(orders_after_fill(s, 0) =~= s);
        } else {
            assert(orders_after_fill(s, 0) =~= s);
        }
    }
}

/// Conservation: the quantity the queue loses is exactly the quantity the
/// market order loses, and neither goes below zero; ids, sides and relative
/// order are untouched.
pub proof fn lemma_fill_conservation(s: Seq<Order>, m: int)
    requires
        m >= 0,
    ensures
        remaining_after(s, m) == if m >= volume(s) { m - volume(s) } else { 0 },
        volume(orders_after_fill(s, m)) == volume(s) - (m - remaining_after(s, m)),
        orders_after_fill(s, m).len() == s.len(),
        forall|i: int| 0 <= i < s.len() ==> #[trigger] orders_after_fill(s, m)[i].id == s[i].id,
        forall|i: int| 0 <= i < s.len() ==> #[trigger] orders_after_fill(s, m)[i].bid_or_ask
            == s[i].bid_or_ask,
        forall|i: int| 0 <= i < s.len() ==> #[trigger] orders_after_fill(s, m)[i].size <= s[i].size,
    decreases s.len(),
{
    lemma_volume_bounds(s);
    if s.len() == 0 {
    } else {
        let rest = s.skip(1);
        lemma_volume_bounds(rest);
        if m >= s[0].size {
            lemma_fill_conservation(rest, m - s[0].size);
            let head = Order { size: 0, ..s[0] };
            lemma_volume_concat(seq![head], orders_after_fill(rest, m - s[0].size));
            assert(volume(seq![head]) == 0) by {
                assert(seq![head][0] == head);
                assert(seq![head].skip(1) =~= Seq::<Order>::empty());
                assert(volume(seq![head]) == head.size + volume(seq![head].skip(1)));
            }
            assert forall|i: int| 0 <= i < s.len() implies #[trigger] orders_after_fill(s, m)[i].id
                == s[i].id && orders_after_fill(s, m)[i].bid_or_ask == s[i].bid_or_ask
                && orders_after_fill(s, m)[i].size <= s[i].size by {
                if i > 0 {
                    assert(orders_after_fill(s, m)[i] == orders_after_fill(rest, m - s[0].size)[i
                        - 1]);
                    assert(rest[i - 1] == s[i]);
                }
            }
        } else {
            let head = Order { size: (s[0].size - m) as u64, ..s[0] };
            lemma_volume_concat(seq![head], rest);
            assert(volume(seq![head]) == head.size) by {
                assert(seq![head][0] == head);
                assert(seq![head].skip(1) =~= Seq::<Order>::empty());
                assert(volume(seq![head]) == head.size + volume(seq![head].skip(1)));
            }
            assert forall|i: int| 0 <= i < s.len() implies #[trigger] orders_after_fill(s, m)[i].id
                == s[i].id && orders_after_fill(s, m)[i].bid_or_ask == s[i].bid_or_ask
                && orders_after_fill(s, m)[i].size <= s[i].size by {
                if i > 0 {
                    assert(orders_after_fill(s, m)[i] == rest[i - 1]);
                }
            }
        }
    }
}

/// The queue after the first order carrying `id` is removed; the relative
/// order of the others is kept.  Without such an order, the queue as it was.
pub open spec fn remove_first_id(orders: Seq<Order>, id: u128) -> Seq<Order>
    decreases orders.len(),
{
    if orders.len() == 0 {
        orders
    } else if orders[0].id == id {
        orders.skip(1)
    } else {
        seq![orders[0]] + remove_first_id(orders.skip(1), id)
    }
}

/// A single price level: the FIFO queue of resting orders at one exact price
/// on one side of the book.  Arrival order is the only ordering; it is never
/// rearranged.
#[derive(Debug)]
pub struct Limit {
    pub price: u64,
    pub orders: Vec<Order>,
}

impl Clone for Limit {
    fn clone(&self) -> (r: Self)
        ensures
            r.price == self.price,
            r.orders@ == self.orders@,
    {
        let mut orders: Vec<Order> = Vec::new();
        let mut i: usize = 0;
        while i < self.orders.len()
            invariant
                i <= self.orders.len(),
                orders@ == self.orders@.take(i as int),
            decreases self.orders.len() - i,
        {
            orders.push(self.orders[i]);
            proof {
                assert(orders@ =~= self.orders@.take(i + 1));
            }
            i = i + 1;
        }
        proof {
            assert(orders@ =~= self.orders@);
        }
        Limit { price: self.price, orders }
    }
}

impl Limit {
    /// A fresh, empty price level.
    pub fn new(price: u64) -> (r: Limit)
        ensures
            r.price == price,
            r.orders@ == Seq::<Order>::empty(),
    {
        Limit { price, orders: Vec::new() }
    }

    /// Appends at the tail of the queue: time priority is arrival order.
    pub fn add_order(&mut self, order: Order)
        ensures
            final(self).price == old(self).price,
            final(self).orders@ == old(self).orders@.push(order),
    {
        self.orders.push(order);
    }

    /// The quantity resting at this level; zero exactly when the level is
    /// exhausted.
    pub fn total_volume(&self) -> (r: u128)
        ensures
            r == volume(self.orders@),
    {
        let mut acc: u128 = 0;
        let mut i: usize = 0;
        while i < self.orders.len()
            invariant
                i <= self.orders.len(),
                acc == volume(self.orders@.take(i as int)),
            decreases self.orders.len() - i,
        {
            proof {
                assert(self.orders@.take(i + 1) =~= self.orders@.take(i as int).push(
                self.orders@[i as int]));
                lemma_volume_push(self.orders@.take(i as int), self.orders@[i as int]);
                lemma_volume_bounds(self.orders@.take(i as int));
                assert((i as int) * (u64::MAX as int) + (u64::MAX as int) < u128::MAX)
                    by (nonlinear_arith)
                    requires 0 <= i < usize::MAX;
            }
            acc = acc + (self.orders[i].size as u128);
            i = i + 1;
        }
        proof {
            assert(self.orders@.take(self.orders@.len() as int) =~= self.orders@);
        }
        acc
    }

    /// Walks the resting orders head to tail and fills them against the
    /// incoming market order, strictly FIFO: a resting order is never
    /// partially skipped in favor of a later one.  Stops once the market
    /// order is filled or the queue is exhausted.
    #[verifier::rlimit(60)]
    pub fn fill_order(&mut self, market_order: &mut Order)
        ensures
            final(self).price == old(self).price,
            final(self).orders@ == orders_after_fill(
                old(self).orders@,
                old(market_order).size as int,
            ),
            final(market_order).size as int == remaining_after(
                old(self).orders@,
                old(market_order).size as int,
            ),
            final(market_order).id == old(market_order).id,
            final(market_order).bid_or_ask == old(market_order).bid_or_ask,
    {
        let ghost orig = self.orders@;
        let ghost m0 = market_order.size as int;
        let ghost oid = market_order.id;
        let ghost oside = market_order.bid_or_ask;
        let ghost p0 = self.price;
        let mut i: usize = 0;
        proof {
            assert(orig.skip(0) =~= orig);
            assert(orig.take(0) + orders_after_fill(orig, m0) =~= orders_after_fill(orig, m0));
        }
        while i < self.orders.len() && market_order.size > 0
            invariant
                self.price == p0,
                i <= self.orders@.len(),
                self.orders@.len() == orig.len(),
                self.orders@.skip(i as int) == orig.skip(i as int),
                market_order.id == oid,
                market_order.bid_or_ask == oside,
                orders_after_fill(orig, m0) == self.orders@.take(i as int) + orders_after_fill(
                    self.orders@.skip(i as int),
                    market_order.size as int,
                ),
                remaining_after(orig, m0) == remaining_after(
                    self.orders@.skip(i as int),
                    market_order.size as int,
                ),
            decreases self.orders@.len() - i,
        {
            let ghost pre = self.orders@;
            let ghost m = market_order.size as int;
            proof {
                assert(pre.skip(i as int)[0] == pre[i as int]);
                assert(pre.skip(i as int).skip(1) =~= pre.skip(i + 1));
            }
            if market_order.size >= self.orders[i].size {
                let taken = self.orders[i].size;
                market_order.size = market_order.size - taken;
                self.orders[i].size = 0;
                proof {
                    let z = Order { size: 0, ..pre[i as int] };
                    assert(self.orders@ =~= pre.update(i as int, z));
                    assert(self.orders@.skip(i + 1) =~= pre.skip(i + 1));
                    assert(self.orders@.take(i + 1) =~= pre.take(i as int) + seq![z]);
                    let tail_fill = orders_after_fill(pre.skip(i + 1), m - pre[i as int].size);
                    assert(orders_after_fill(pre.skip(i as int), m) == seq![z] + tail_fill);
                    assert(pre.take(i as int) + (seq![z] + tail_fill) =~= (pre.take(i as int)
                        + seq![z]) + tail_fill);
                }
            } else {
                let cur = self.orders[i].size;
                let m_exec = market_order.size;
                self.orders[i].size = cur - m_exec;
                market_order.size = 0;
                proof {
                    let z = Order { size: (pre[i as int].size - m) as u64, ..pre[i as int] };
                    assert(self.orders@ =~= pre.update(i as int, z));
                    assert(self.orders@.skip(i + 1) =~= pre.skip(i + 1));
                    assert(self.orders@.take(i + 1) =~= pre.take(i as int) + seq![z]);
                    assert(orders_after_fill(pre.skip(i as int), m) == seq![z] + pre.skip(i + 1));
                    lemma_fill_zero(pre.skip(i + 1));
                    assert(pre.take(i as int) + (seq![z] + pre.skip(i + 1)) =~= (pre.take(i as int)
                        + seq![z]) + pre.skip(i + 1));
                }
            }
            i = i + 1;
        }
        proof {
            if market_order.size == 0 {
                lemma_fill_zero(self.orders@.skip(i as int));
            }
            assert(self.orders@.take(i as int) + self.orders@.skip(i as int) =~= self.orders@);
        }
    }

    /// Removes the first (in a well-formed book: the only) resting order
    /// carrying `id`; the relative order of the others is kept.  Leaves the
    /// queue as it was if no order carries `id`.
    pub fn cancel_order(&mut self, id: u128)
        ensures
            final(self).price == old(self).price,
            final(self).orders@ == remove_first_id(old(self).orders@, id),
    {
        let ghost orig = self.orders@;
        let ghost p0 = self.price;
        let mut i: usize = 0;
        proof {
            assert(orig.skip(0) =~= orig);
            assert(orig.take(0) + remove_first_id(orig, id) =~= remove_first_id(orig, id));
        }
        while i < self.orders.len()
            invariant
                orig == old(self).orders@,
                p0 == old(self).price,
                self.price == p0,
                i <= orig.len(),
                self.orders@ == orig,
                remove_first_id(orig, id) == orig.take(i as int) + remove_first_id(
                    orig.skip(i as int),
                    id,
                ),
            decreases orig.len() - i,
        {
            proof {
                assert(orig.skip(i as int)[0] == orig[i as int]);
                assert(orig.skip(i as int).skip(1) =~= orig.skip(i + 1));
            }
            if self.orders[i].id == id {
                self.orders.remove(i);
                proof {
                    assert(orig.remove(i as int) =~= orig.take(i as int) + orig.skip(i + 1));
                }
                return;
            }
            proof {
                assert(orig.take(i + 1) =~= orig.take(i as int) + seq![orig[i as int]]);
                let tail_removed = remove_first_id(orig.skip(i + 1), id);
                assert(remove_first_id(orig.skip(i as int), id) == seq![orig[i as int]]
                    + tail_removed);
                assert(orig.take(i as int) + (seq![orig[i as int]] + tail_removed) =~= (orig.take(
                    i as int,
                ) + seq![orig[i as int]]) + tail_removed);
            }
            i = i + 1;
        }
        proof {
            assert(orig.skip(orig.len() as int) =~= Seq::<Order>::empty());
            assert(remove_first_id(orig, id) =~= orig.take(orig.len() as int));
            assert(orig.take(orig.len() as int) =~= orig);
        }
    }
}

/// The ghost image of one price level: its price and its order queue.
pub type LevelView = (u64, Seq<Order>);

/// The levels of one side of a book, as they are, level by level.
pub open spec fn side_view(limits: Seq<Limit>) -> Seq<LevelView> {
    Seq::new(limits.len(), |i: int| (limits[i].price, limits[i].orders@))
}

/// The identities of the orders resting in a queue.
pub open spec fn order_ids(orders: Seq<Order>) -> Set<u128> {
    Set::new(|id: u128| exists|j: int| 0 <= j < orders.len() && orders[j].id == id)
}

/// No two orders of the queue share an identity.
pub open spec fn distinct_ids(orders: Seq<Order>) -> bool {
    forall|j1: int, j2: int| 0 <= j1 < j2 < orders.len() ==> orders[j1].id != orders[j2].id
}

/// One side of a book after a market quantity `m` walked its levels front to
/// back: each level `m` can drain in full disappears, the first level it
/// cannot drain absorbs the rest FIFO, everything behind is untouched.
pub open spec fn book_fill(levels: Seq<LevelView>, m: int) -> Seq<LevelView>
    decreases levels.len(),
{
    if levels.len() == 0 || m <= 0 {
        levels
    } else if m >= volume(levels[0].1) {
        book_fill(levels.skip(1), m - volume(levels[0].1))
    } else {
        seq![(levels[0].0, orders_after_fill(levels[0].1, m))] + levels.skip(1)
    }
}

/// What remains of a market quantity `m` once one side of a book absorbed
/// what it could.
pub open spec fn book_remaining(levels: Seq<LevelView>, m: int) -> int
    decreases levels.len(),
{
    if levels.len() == 0 || m <= 0 {
        m
    } else if m >= volume(levels[0].1) {
        book_remaining(levels.skip(1), m - volume(levels[0].1))
    } else {
        0
    }
}

/// The identities of the orders that sit in levels a fill of quantity `m`
/// drains in full; those levels leave the book, and their identities leave
/// the index.
pub open spec fn drained_ids(levels: Seq<LevelView>, m: int) -> Set<u128>
    decreases levels.len(),
{
    if levels.len() == 0 || m <= 0 {
        Set::<u128>::empty()
    } else if m >= volume(levels[0].1) {
        order_ids(levels[0].1).union(drained_ids(levels.skip(1), m - volume(levels[0].1)))
    } else {
        Set::<u128>::empty()
    }
}

/// The number of whole levels a fill of quantity `m` drains from the front.
pub open spec fn drained_count(levels: Seq<LevelView>, m: int) -> int
    decreases levels.len(),
{
    if levels.len() == 0 || m <= 0 {
        0
    } else if m >= volume(levels[0].1) {
        1 + drained_count(levels.skip(1), m - volume(levels[0].1))
    } else {
        0
    }
}

/// The total quantity resting on one side of a book.
pub open spec fn book_volume(levels: Seq<LevelView>) -> int
    decreases levels.len(),
{
    if levels.len() == 0 {
        0
    } else {
        volume(levels[0].1) + book_volume(levels.skip(1))
    }
}

pub proof fn lemma_book_volume_nonneg(levels: Seq<LevelView>)
    ensures
        book_volume(levels) >= 0,
    decreases levels.len(),
{
    if levels.len() > 0 {
        lemma_volume_bounds(levels[0].1);
        lemma_book_volume_nonneg(levels.skip(1));
    }
}

/// Prices strictly ascend: ask-side priority order, best (lowest) first.
pub open spec fn sorted_ascending(levels: Seq<LevelView>) -> bool {
    forall|i: int, j: int|
        0 <= i < j < levels.len() ==> (#[trigger] levels[i]).0 < (#[trigger] levels[j]).0
}

/// Prices strictly descend: bid-side priority order, best (highest) first.
pub open spec fn sorted_descending(levels: Seq<LevelView>) -> bool {
    forall|i: int, j: int|
        0 <= i < j < levels.len() ==> (#[trigger] levels[i]).0 > (#[trigger] levels[j]).0
}

/// Every level still holds unfilled quantity: emptied levels never rest in a
/// book.
pub open spec fn positive_volumes(levels: Seq<LevelView>) -> bool {
    forall|i: int| 0 <= i < levels.len() ==> volume(#[trigger] levels[i].1) > 0
}

/// Every order resting on this side is indexed under its level's price and
/// this side.
pub open spec fn side_indexed(
    levels: Seq<LevelView>,
    index: Map<u128, (u64, BidOrAsk)>,
    side: BidOrAsk,
) -> bool {
    forall|i: int, j: int|
        0 <= i < levels.len() && 0 <= j < levels[i].1.len() ==> {
            &&& index.contains_key((#[trigger] levels[i].1[j]).id)
            &&& index[levels[i].1[j].id] == (levels[i].0, side)
        }
}

/// Identities are distinct within every level.
pub open spec fn distinct_each_level(levels: Seq<LevelView>) -> bool {
    forall|i: int| 0 <= i < levels.len() ==> distinct_ids(#[trigger] levels[i].1)
}

/// Some level of this side carries `price` and holds an order with `id`.
pub open spec fn level_contains(levels: Seq<LevelView>, price: u64, id: u128) -> bool {
    exists|i: int| 0 <= i < levels.len() && (#[trigger] levels[i]).0 == price && order_ids(
        levels[i].1,
    ).contains(id)
}

/// Every index entry tagged with `side` resolves to a level of `levels` at
/// the recorded price that holds the order.
pub open spec fn index_covers_side(
    index: Map<u128, (u64, BidOrAsk)>,
    levels: Seq<LevelView>,
    side: BidOrAsk,
) -> bool {
    forall|id: u128|
        #[trigger] index.contains_key(id) && index[id].1 == side ==> level_contains(
            levels,
            index[id].0,
            id,
        )
}

/// Every indexed identity resolves to a level on the recorded side at the
/// recorded price that holds the order.
pub open spec fn index_covered(
    index: Map<u128, (u64, BidOrAsk)>,
    asks: Seq<LevelView>,
    bids: Seq<LevelView>,
) -> bool {
    &&& index_covers_side(index, asks, BidOrAsk::Ask)
    &&& index_covers_side(index, bids, BidOrAsk::Bid)
}

/// The ghost image of a whole book: both sides in priority order and the
/// identity index.
pub ghost struct BookView {
    pub asks: Seq<LevelView>,
    pub bids: Seq<LevelView>,
    pub index: Map<u128, (u64, BidOrAsk)>,
}

/// One instrument's book: the resting sell interest (`asks`, kept in
/// ascending price order), the resting buy interest (`bids`, kept in
/// descending price order), and the identity index that lets any resting
/// order be cancelled without scanning every level.
pub struct Orderbook {
    asks: Vec<Limit>,
    bids: Vec<Limit>,
    order_map: HashMap<u128, (u64, BidOrAsk)>,
}

impl View for Orderbook {
    type V = BookView;

    closed spec fn view(&self) -> BookView {
        BookView {
            asks: side_view(self.asks@),
            bids: side_view(self.bids@),
            index: self.order_map@,
        }
    }
}

/// The structural invariants of a book over its ghost image: both sides in
/// strict priority order, no emptied level retained, every resting order
/// indexed under its level, and every index entry resolving to exactly one
/// resting order.
pub open spec fn wf_views(
    asks: Seq<LevelView>,
    bids: Seq<LevelView>,
    index: Map<u128, (u64, BidOrAsk)>,
) -> bool {
    &&& sorted_ascending(asks)
    &&& sorted_descending(bids)
    &&& positive_volumes(asks)
    &&& positive_volumes(bids)
    &&& distinct_each_level(asks)
    &&& distinct_each_level(bids)
    &&& side_indexed(asks, index, BidOrAsk::Ask)
    &&& side_indexed(bids, index, BidOrAsk::Bid)
    &&& index_covered(index, asks, bids)
}

/// One side after a passive limit order rests on it: the order joins the tail
/// of the level at its price, or a fresh single-order level takes its place in
/// the side's priority order (`ascending` for asks, descending for bids).
pub open spec fn add_to_side(
    levels: Seq<LevelView>,
    price: u64,
    order: Order,
    ascending: bool,
) -> Seq<LevelView>
    decreases levels.len(),
{
    if levels.len() == 0 {
        seq![(price, seq![order])]
    } else if levels[0].0 == price {
        seq![(price, levels[0].1.push(order))] + levels.skip(1)
    } else if (if ascending {
        levels[0].0 > price
    } else {
        levels[0].0 < price
    }) {
        seq![(price, seq![order])] + levels
    } else {
        seq![levels[0]] + add_to_side(levels.skip(1), price, order, ascending)
    }
}

pub proof fn lemma_volume_singleton(o: Order)
    ensures
        volume(seq![o]) == o.size,
    decreases 0nat,
{
    assert(seq![o][0] == o);
    assert(seq![o].skip(1) =~= Seq::<Order>::empty());
    assert(volume(seq![o]) == o.size + volume(seq![o].skip(1)));
}

pub proof fn lemma_order_ids_push(s: Seq<Order>, o: Order)
    ensures
        order_ids(s.push(o)) =~= order_ids(s).insert(o.id),
{
    assert forall|id: u128| order_ids(s.push(o)).contains(id) implies order_ids(s).insert(
        o.id,
    ).contains(id) by {
        let j = choose|j: int| 0 <= j < s.push(o).len() && s.push(o)[j].id == id;
        if j < s.len() {
            assert(s[j].id == id);
        }
    }
    assert forall|id: u128| order_ids(s).insert(o.id).contains(id) implies order_ids(
        s.push(o),
    ).contains(id) by {
        if id == o.id {
            assert(s.push(o)[s.len() as int].id == id);
        } else {
            let j = choose|j: int| 0 <= j < s.len() && s[j].id == id;
            assert(s.push(o)[j].id == id);
        }
    }
}

pub proof fn lemma_order_ids_singleton(o: Order)
    ensures
        order_ids(seq![o]) =~= Set::<u128>::empty().insert(o.id),
{
    assert(seq![o][0] == o);
    assert forall|id: u128| order_ids(seq![o]).contains(id) implies id == o.id by {
        let j = choose|j: int| 0 <= j < 1 && seq![o][j].id == id;
        assert(j == 0);
    }
}

pub proof fn lemma_order_ids_empty(s: Seq<Order>)
    requires
        s.len() == 0,
    ensures
        order_ids(s) =~= Set::<u128>::empty(),
{
    assert forall|id: u128| !order_ids(s).contains(id) by {
        if order_ids(s).contains(id) {
            let j = choose|j: int| 0 <= j < s.len() && s[j].id == id;
        }
    }
}

pub proof fn lemma_order_ids_pointwise(s1: Seq<Order>, s2: Seq<Order>)
    requires
        s1.len() == s2.len(),
        forall|j: int| 0 <= j < s1.len() ==> s1[j].id == s2[j].id,
    ensures
        order_ids(s1) =~= order_ids(s2),
{
    assert forall|id: u128| order_ids(s1).contains(id) implies order_ids(s2).contains(id) by {
        let j = choose|j: int| 0 <= j < s1.len() && s1[j].id == id;
        assert(s2[j].id == id);
    }
    assert forall|id: u128| order_ids(s2).contains(id) implies order_ids(s1).contains(id) by {
        let j = choose|j: int| 0 <= j < s2.len() && s2[j].id == id;
        assert(s1[j].id == id);
    }
}

/// The structure of one side after a fill: some prefix of whole levels is
/// drained and gone, the next level absorbs the rest in place (same price,
/// same identities, still unfilled quantity), everything behind is untouched;
/// the identities that leave are exactly those of the drained prefix, and the
/// quantity the side loses is exactly the quantity the market order loses.
pub proof fn lemma_book_fill_shape(levels: Seq<LevelView>, m: int)
    requires
        m >= 0,
        positive_volumes(levels),
    ensures
        ({
            let w = book_fill(levels, m);
            let k = drained_count(levels, m);
            &&& 0 <= k <= levels.len()
            &&& w.len() == levels.len() - k
            &&& (forall|i: int| 1 <= i < w.len() ==> w[i] == levels[k + i])
            &&& (w.len() > 0 ==> {
                &&& w[0].0 == levels[k].0
                &&& w[0].1.len() == levels[k].1.len()
                &&& (forall|j: int| 0 <= j < w[0].1.len() ==> (#[trigger] w[0].1[j]).id == levels[k].1[j].id)
                &&& volume(w[0].1) > 0
            })
            &&& (forall|id: u128|
                drained_ids(levels, m).contains(id) <==> exists|j: int|
                    0 <= j < k && order_ids(#[trigger] levels[j].1).contains(id))
            &&& book_remaining(levels, m) == (if m >= book_volume(levels) {
                m - book_volume(levels)
            } else {
                0
            })
            &&& book_volume(w) == book_volume(levels) - (m - book_remaining(levels, m))
        }),
    decreases levels.len(),
{
    let w = book_fill(levels, m);
    let k = drained_count(levels, m);
    lemma_book_volume_nonneg(levels);
    if levels.len() == 0 {
        assert forall|id: u128| !drained_ids(levels, m).contains(id) by {}
    } else if m <= 0 {
        assert(w == levels);
        assert(k == 0);
        assert(volume(levels[0].1) > 0);
        lemma_book_volume_nonneg(levels.skip(1));
        assert(book_volume(levels) > 0);
        assert forall|id: u128|
            drained_ids(levels, m).contains(id) <==> exists|j: int|
                0 <= j < k && order_ids(#[trigger] levels[j].1).contains(id) by {
            if exists|j: int| 0 <= j < k && order_ids(#[trigger] levels[j].1).contains(id) {
                let j = choose|j: int| 0 <= j < k && order_ids(#[trigger] levels[j].1).contains(id);
            }
        }
    } else {
        let q = levels[0].1;
        let v0 = volume(q);
        lemma_volume_bounds(q);
        assert(positive_volumes(levels.skip(1))) by {
            assert forall|i: int|
                0 <= i < levels.skip(1).len() implies volume(#[trigger] levels.skip(1)[i].1)
                > 0 by {
                assert(levels.skip(1)[i] == levels[i + 1]);
            }
        }
        if m >= v0 {
            lemma_book_fill_shape(levels.skip(1), m - v0);
            let k1 = drained_count(levels.skip(1), m - v0);
            assert(k == 1 + k1);
            assert(w == book_fill(levels.skip(1), m - v0));
            assert forall|i: int| 1 <= i < w.len() implies w[i] == levels[k + i] by {
                assert(w[i] == levels.skip(1)[k1 + i]);
                assert(levels.skip(1)[k1 + i] == levels[k + i]);
            }
            if w.len() > 0 {
                assert(levels.skip(1)[k1] == levels[k]);
            }
            assert forall|id: u128|
                drained_ids(levels, m).contains(id) <==> exists|j: int|
                    0 <= j < k && order_ids(#[trigger] levels[j].1).contains(id) by {
                assert(drained_ids(levels, m) == order_ids(q).union(
                    drained_ids(levels.skip(1), m - v0),
                ));
                if drained_ids(levels, m).contains(id) {
                    if order_ids(q).contains(id) {
                        assert(order_ids(levels[0].1).contains(id));
                    } else {
                        let j1 = choose|j1: int|
                            0 <= j1 < k1 && order_ids(#[trigger] levels.skip(1)[j1].1).contains(id);
                        assert(levels.skip(1)[j1] == levels[j1 + 1]);
                        assert(order_ids(levels[j1 + 1].1).contains(id));
                    }
                }
                if exists|j: int| 0 <= j < k && order_ids(#[trigger] levels[j].1).contains(id) {
                    let j = choose|j: int|
                        0 <= j < k && order_ids(#[trigger] levels[j].1).contains(id);
                    if j == 0 {
                        assert(order_ids(q).contains(id));
                    } else {
                        assert(levels.skip(1)[j - 1] == levels[j]);
                        assert(order_ids(levels.skip(1)[j - 1].1).contains(id));
                        assert(drained_ids(levels.skip(1), m - v0).contains(id));
                    }
                }
            }
        } else {
            let qa = orders_after_fill(q, m);
            lemma_fill_conservation(q, m);
            assert(remaining_after(q, m) == 0);
            assert(volume(qa) == v0 - m);
            assert(k == 0);
            assert(w == seq![(levels[0].0, qa)] + levels.skip(1));
            assert(w.len() == levels.len());
            assert forall|i: int| 1 <= i < w.len() implies w[i] == levels[i] by {
                assert(w[i] == levels.skip(1)[i - 1]);
            }
            assert(w[0] == (levels[0].0, qa));
            assert(drained_ids(levels, m) =~= Set::<u128>::empty());
            lemma_book_volume_nonneg(levels.skip(1));
            assert(book_remaining(levels, m) == 0);
            assert(m < book_volume(levels));
            assert(book_volume(w) == volume(qa) + book_volume(w.skip(1)));
            assert(w.skip(1) =~= levels.skip(1));
        }
    }
}

/// Cancelling by identity inside a queue: with distinct identities, removing
/// the first (only) match takes exactly that identity out, keeps the others,
/// and every remaining order is one of the original orders.
pub proof fn lemma_remove_first_id_ids(s: Seq<Order>, id: u128)
    requires
        distinct_ids(s),
    ensures
        !order_ids(s).contains(id) ==> remove_first_id(s, id) == s,
        order_ids(s).contains(id) ==> order_ids(remove_first_id(s, id)) =~= order_ids(s).remove(
            id,
        ),
        order_ids(s).contains(id) ==> remove_first_id(s, id).len() == s.len() - 1,
        distinct_ids(remove_first_id(s, id)),
        forall|j2: int|
            0 <= j2 < remove_first_id(s, id).len() ==> exists|j: int|
                0 <= j < s.len() && s[j] == #[trigger] remove_first_id(s, id)[j2],
        volume(remove_first_id(s, id)) <= volume(s),
    decreases s.len(),
{
    let r = remove_first_id(s, id);
    lemma_volume_bounds(s);
    if s.len() == 0 {
        lemma_order_ids_empty(s);
    } else if s[0].id == id {
        assert(r == s.skip(1));
        assert(order_ids(s).contains(id)) by {
            assert(s[0].id == id);
        }
        assert forall|id2: u128| order_ids(r).contains(id2) implies order_ids(s).remove(
            id,
        ).contains(id2) by {
            let j = choose|j: int| 0 <= j < r.len() && r[j].id == id2;
            assert(s[j + 1].id == id2);
            assert(id2 != id) by {
                assert(s[0].id != s[j + 1].id);
            }
        }
        assert forall|id2: u128| order_ids(s).remove(id).contains(id2) implies order_ids(
            r,
        ).contains(id2) by {
            let j = choose|j: int| 0 <= j < s.len() && s[j].id == id2;
            assert(j != 0);
            assert(r[j - 1].id == id2);
        }
        assert forall|j1: int, j2: int| 0 <= j1 < j2 < r.len() implies r[j1].id != r[j2].id by {
            assert(s[j1 + 1].id != s[j2 + 1].id);
        }
        assert forall|j2: int|
            0 <= j2 < r.len() implies exists|j: int| 0 <= j < s.len() && s[j] == #[trigger] r[j2] by {
            assert(s[j2 + 1] == r[j2]);
        }
        lemma_volume_concat(seq![s[0]], s.skip(1));
        assert(seq![s[0]] + s.skip(1) =~= s);
        lemma_volume_singleton(s[0]);
        lemma_volume_bounds(r);
    } else {
        let rest = s.skip(1);
        assert(distinct_ids(rest)) by {
            assert forall|j1: int, j2: int|
                0 <= j1 < j2 < rest.len() implies rest[j1].id != rest[j2].id by {
                assert(s[j1 + 1].id != s[j2 + 1].id);
            }
        }
        lemma_remove_first_id_ids(rest, id);
        let rr = remove_first_id(rest, id);
        assert(r == seq![s[0]] + rr);
        assert(r[0] == s[0]);
        assert forall|j2: int| 1 <= j2 < r.len() implies r[j2] == rr[j2 - 1] by {}
        if !order_ids(s).contains(id) {
            assert(!order_ids(rest).contains(id)) by {
                if order_ids(rest).contains(id) {
                    let j = choose|j: int| 0 <= j < rest.len() && rest[j].id == id;
                    assert(s[j + 1].id == id);
                }
            }
            assert(rr == rest);
            assert(r =~= s);
        } else {
            assert(order_ids(rest).contains(id)) by {
                let j = choose|j: int| 0 <= j < s.len() && s[j].id == id;
                assert(j != 0);
                assert(rest[j - 1].id == id);
            }
            assert forall|id2: u128| order_ids(r).contains(id2) implies order_ids(s).remove(
                id,
            ).contains(id2) by {
                let j2 = choose|j2: int| 0 <= j2 < r.len() && r[j2].id == id2;
                if j2 == 0 {
                    assert(s[0].id == id2);
                    assert(id2 != id);
                } else {
                    assert(rr[j2 - 1].id == id2);
                    assert(order_ids(rest).remove(id).contains(id2));
                    let j = choose|j: int| 0 <= j < rest.len() && rest[j].id == id2;
                    assert(s[j + 1].id == id2);
                }
            }
            assert forall|id2: u128| order_ids(s).remove(id).contains(id2) implies order_ids(
                r,
            ).contains(id2) by {
                let j = choose|j: int| 0 <= j < s.len() && s[j].id == id2;
                if j == 0 {
                    assert(r[0].id == id2);
                } else {
                    assert(rest[j - 1].id == id2);
                    assert(order_ids(rest).remove(id).contains(id2));
                    let j3 = choose|j3: int| 0 <= j3 < rr.len() && rr[j3].id == id2;
                    assert(r[j3 + 1].id == id2);
                }
            }
            // distinctness of the rebuilt queue
            assert forall|j1: int, j2: int| 0 <= j1 < j2 < r.len() implies r[j1].id != r[j2].id by {
                if j1 == 0 {
                    assert(r[j2] == rr[j2 - 1]);
                    assert(order_ids(rest).remove(id).contains(rr[j2 - 1].id)) by {
                        assert(order_ids(rr).contains(rr[j2 - 1].id));
                    }
                    let j = choose|j: int| 0 <= j < rest.len() && rest[j].id == rr[j2 - 1].id;
                    assert(s[0].id != s[j + 1].id);
                } else {
                    assert(rr[j1 - 1].id != rr[j2 - 1].id);
                }
            }
            assert forall|j2: int|
                0 <= j2 < r.len() implies exists|j: int|
                    0 <= j < s.len() && s[j] == #[trigger] r[j2] by {
                if j2 == 0 {
                    assert(s[0] == r[0]);
                } else {
                    let j = choose|j: int| 0 <= j < rest.len() && rest[j] == rr[j2 - 1];
                    assert(s[j + 1] == r[j2]);
                }
            }
            lemma_volume_concat(seq![s[0]], rr);
            lemma_volume_concat(seq![s[0]], rest);
            assert(seq![s[0]] + rest =~= s);
        }
    }
}

/// FIFO fairness: with two orders resting at one price, sizes `a` then `b`
/// in arrival order, a market quantity of exactly `a` fills the first in full
/// and leaves the second untouched.
pub proof fn lemma_fifo_fairness(x: Order, y: Order, m: int)
    requires
        m == x.size,
        x.size > 0,
    ensures
        orders_after_fill(seq![x, y], m) == seq![Order { size: 0, ..x }, y],
        remaining_after(seq![x, y], m) == 0,
{
    let s = seq![x, y];
    assert(s[0] == x);
    assert(s.skip(1) =~= seq![y]);
    lemma_fill_zero(seq![y]);
    assert(orders_after_fill(s, m) == seq![Order { size: 0, ..x }] + orders_after_fill(
        seq![y],
        0,
    ));
    assert(seq![Order { size: 0, ..x }] + seq![y] =~= seq![Order { size: 0, ..x }, y]);
    assert(remaining_after(s, m) == remaining_after(seq![y], 0));
}

/// Price priority: a fill consumes whole levels only from the front of the
/// priority order, so with an ascending side (asks) every drained level is
/// strictly cheaper than every remaining one, and with a descending side
/// (bids) strictly higher; the remaining levels keep their prices and order.
pub proof fn lemma_fill_price_priority(levels: Seq<LevelView>, m: int)
    requires
        m >= 0,
        positive_volumes(levels),
    ensures
        ({
            let w = book_fill(levels, m);
            let k = drained_count(levels, m);
            &&& 0 <= k <= levels.len()
            &&& w.len() == levels.len() - k
            &&& (forall|i: int| 0 <= i < w.len() ==> (#[trigger] w[i]).0 == levels[k + i].0)
            &&& (sorted_ascending(levels) ==> (forall|i: int, j: int|
                0 <= i < k && k <= j < levels.len() ==> (#[trigger] levels[i]).0 < (
                #[trigger] levels[j]).0))
            &&& (sorted_descending(levels) ==> (forall|i: int, j: int|
                0 <= i < k && k <= j < levels.len() ==> (#[trigger] levels[i]).0 > (
                #[trigger] levels[j]).0))
        }),
{
    lemma_book_fill_shape(levels, m);
    let w = book_fill(levels, m);
    let k = drained_count(levels, m);
    assert forall|i: int| 0 <= i < w.len() implies (#[trigger] w[i]).0 == levels[k + i].0 by {
        if i >= 1 {
            assert(w[i] == levels[k + i]);
        }
    }
}

/// Partial fill conservation at the level of one side: the quantity the side
/// loses equals the quantity the incoming order absorbs, and an order is left
/// unfilled only when the side ran out of liquidity.
pub proof fn lemma_book_fill_conservation(levels: Seq<LevelView>, m: int)
    requires
        m >= 0,
        positive_volumes(levels),
    ensures
        book_remaining(levels, m) == (if m >= book_volume(levels) {
            m - book_volume(levels)
        } else {
            0
        }),
        book_volume(book_fill(levels, m)) == book_volume(levels) - (m - book_remaining(levels, m)),
{
    lemma_book_fill_shape(levels, m);
}

/// One side after a cancellation at `price`: the level at that price loses
/// the first order carrying `id`, and leaves the book entirely if no unfilled
/// quantity remains in it.
pub open spec fn cancel_in_side(levels: Seq<LevelView>, price: u64, id: u128) -> Seq<LevelView>
    decreases levels.len(),
{
    if levels.len() == 0 {
        levels
    } else if levels[0].0 == price {
        if volume(remove_first_id(levels[0].1, id)) <= 0 {
            levels.skip(1)
        } else {
            seq![(price, remove_first_id(levels[0].1, id))] + levels.skip(1)
        }
    } else {
        seq![levels[0]] + cancel_in_side(levels.skip(1), price, id)
    }
}

/// The identities that a cancellation at `price` takes out of the index:
/// the cancelled identity itself, and — when its level leaves the book —
/// the identities of the filled orders still queued there.
pub open spec fn cancelled_ids(levels: Seq<LevelView>, price: u64, id: u128) -> Set<u128>
    decreases levels.len(),
{
    if levels.len() == 0 {
        Set::<u128>::empty().insert(id)
    } else if levels[0].0 == price {
        if volume(remove_first_id(levels[0].1, id)) <= 0 {
            order_ids(remove_first_id(levels[0].1, id)).insert(id)
        } else {
            Set::<u128>::empty().insert(id)
        }
    } else {
        cancelled_ids(levels.skip(1), price, id)
    }
}

/// Cancelling an indexed order preserves every structural invariant of the
/// book.
proof fn lemma_wf_after_cancel(
    levels: Seq<LevelView>,
    other: Seq<LevelView>,
    index: Map<u128, (u64, BidOrAsk)>,
    side: BidOrAsk,
    opp: BidOrAsk,
    ascending: bool,
    price: u64,
    id: u128,
    k: int,
    w: Seq<LevelView>,
    cset: Set<u128>,
)
    requires
        side != opp,
        ascending ==> sorted_ascending(levels),
        !ascending ==> sorted_descending(levels),
        positive_volumes(levels),
        distinct_each_level(levels),
        side_indexed(levels, index, side),
        side_indexed(other, index, opp),
        index_covers_side(index, levels, side),
        index_covers_side(index, other, opp),
        index.contains_key(id),
        index[id] == (price, side),
        0 <= k < levels.len(),
        levels[k].0 == price,
        ({
            let q2 = remove_first_id(levels[k].1, id);
            (volume(q2) > 0 && w == levels.update(k, (price, q2)) && cset == Set::<
                u128,
            >::empty().insert(id)) || (volume(q2) <= 0 && w == levels.remove(k) && cset
                == order_ids(q2).insert(id))
        }),
    ensures
        ascending ==> sorted_ascending(w),
        !ascending ==> sorted_descending(w),
        positive_volumes(w),
        distinct_each_level(w),
        side_indexed(w, index.remove_keys(cset), side),
        index_covers_side(index.remove_keys(cset), w, side),
        side_indexed(other, index.remove_keys(cset), opp),
        index_covers_side(index.remove_keys(cset), other, opp),
{
    let q = levels[k].1;
    let q2 = remove_first_id(q, id);
    let index2 = index.remove_keys(cset);
    // the cancelled identity rests in the level at its price, and only there
    assert(level_contains(levels, price, id));
    let i0 = choose|i0: int|
        0 <= i0 < levels.len() && (#[trigger] levels[i0]).0 == price && order_ids(
            levels[i0].1,
        ).contains(id);
    assert(i0 == k) by {
        if i0 != k {
            if ascending {
                if i0 < k {
                    assert(levels[i0].0 < levels[k].0);
                } else {
                    assert(levels[k].0 < levels[i0].0);
                }
            } else {
                if i0 < k {
                    assert(levels[i0].0 > levels[k].0);
                } else {
                    assert(levels[k].0 > levels[i0].0);
                }
            }
        }
    }
    assert(order_ids(q).contains(id));
    assert(distinct_ids(q));
    lemma_remove_first_id_ids(q, id);
    assert(order_ids(q2) =~= order_ids(q).remove(id));
    // every identity the index loses rests in the old level at `price`
    assert forall|id2: u128| #[trigger] cset.contains(id2) implies order_ids(q).contains(id2)
        && index.contains_key(id2) && index[id2] == (price, side) by {
        if id2 == id {
        } else {
            assert(order_ids(q2).contains(id2));
            let j = choose|j: int| 0 <= j < q.len() && q[j].id == id2;
            assert(index[q[j].id] == (levels[k].0, side));
        }
    }
    // an identity resting in a level away from position k is kept
    assert forall|i: int, j: int|
        0 <= i < levels.len() && i != k && 0 <= j < levels[i].1.len() implies !cset.contains(
        (#[trigger] levels[i].1[j]).id) by {
        let id2 = levels[i].1[j].id;
        if cset.contains(id2) {
            assert(index[id2] == (price, side));
            assert(index[levels[i].1[j].id] == (levels[i].0, side));
            assert(levels[i].0 == levels[k].0);
            if ascending {
                if i < k {
                    assert(levels[i].0 < levels[k].0);
                } else {
                    assert(levels[k].0 < levels[i].0);
                }
            } else {
                if i < k {
                    assert(levels[i].0 > levels[k].0);
                } else {
                    assert(levels[k].0 > levels[i].0);
                }
            }
        }
    }
    if volume(q2) > 0 && w == levels.update(k, (price, q2)) {
        assert forall|i: int| 0 <= i < w.len() implies (#[trigger] w[i]).0 == levels[i].0 by {
            if i != k {
                assert(w[i] == levels[i]);
            }
        }
        if ascending {
            assert forall|i: int, j: int| 0 <= i < j < w.len() implies (#[trigger] w[i]).0 < (
            #[trigger] w[j]).0 by {
                assert(levels[i].0 < levels[j].0);
            }
        } else {
            assert forall|i: int, j: int| 0 <= i < j < w.len() implies (#[trigger] w[i]).0 > (
            #[trigger] w[j]).0 by {
                assert(levels[i].0 > levels[j].0);
            }
        }
        assert forall|i: int| 0 <= i < w.len() implies volume(#[trigger] w[i].1) > 0 by {
            if i != k {
                assert(w[i] == levels[i]);
            }
        }
        assert forall|i: int| 0 <= i < w.len() implies distinct_ids(#[trigger] w[i].1) by {
            if i != k {
                assert(w[i] == levels[i]);
            }
        }
        assert forall|i: int, j: int|
            0 <= i < w.len() && 0 <= j < w[i].1.len() implies {
            &&& index2.contains_key((#[trigger] w[i].1[j]).id)
            &&& index2[w[i].1[j].id] == (w[i].0, side)
        } by {
            if i != k {
                assert(w[i] == levels[i]);
                assert(index.contains_key(levels[i].1[j].id));
                assert(!cset.contains(levels[i].1[j].id));
            } else {
                let o = w[k].1[j];
                let j0 = choose|j0: int| 0 <= j0 < q.len() && q[j0] == #[trigger] q2[j];
                assert(index.contains_key(q[j0].id) && index[q[j0].id] == (levels[k].0, side));
                assert(o.id != id) by {
                    assert(order_ids(q2).contains(o.id));
                }
                assert(!cset.contains(o.id));
            }
        }
        assert forall|id2: u128|
            #[trigger] index2.contains_key(id2) && index2[id2].1 == side implies level_contains(
            w,
            index2[id2].0,
            id2,
        ) by {
            assert(index.contains_key(id2) && index2[id2] == index[id2]);
            let i1 = choose|i1: int|
                0 <= i1 < levels.len() && (#[trigger] levels[i1]).0 == index[id2].0 && order_ids(
                    levels[i1].1,
                ).contains(id2);
            if i1 == k {
                assert(id2 != id);
                assert(order_ids(q2).contains(id2));
                assert(w[k].0 == levels[k].0);
            } else {
                assert(w[i1] == levels[i1]);
            }
            assert(level_contains(w, index[id2].0, id2));
        }
    } else {
        assert(volume(q2) <= 0 && w == levels.remove(k) && cset == order_ids(q2).insert(id));
        assert(cset =~= order_ids(q)) by {
            assert forall|id2: u128| cset.contains(id2) implies order_ids(q).contains(id2) by {}
            assert forall|id2: u128| order_ids(q).contains(id2) implies cset.contains(id2) by {
                if id2 != id {
                    assert(order_ids(q2).contains(id2));
                }
            }
        }
        assert(w.len() == levels.len() - 1);
        assert forall|i: int| 0 <= i < k implies w[i] == levels[i] by {}
        assert forall|i: int| k <= i < w.len() implies w[i] == levels[i + 1] by {}
        if ascending {
            assert forall|i: int, j: int| 0 <= i < j < w.len() implies (#[trigger] w[i]).0 < (
            #[trigger] w[j]).0 by {
                let i1 = if i < k { i } else { i + 1 };
                let j1 = if j < k { j } else { j + 1 };
                assert(w[i] == levels[i1] && w[j] == levels[j1]);
                assert(levels[i1].0 < levels[j1].0);
            }
        } else {
            assert forall|i: int, j: int| 0 <= i < j < w.len() implies (#[trigger] w[i]).0 > (
            #[trigger] w[j]).0 by {
                let i1 = if i < k { i } else { i + 1 };
                let j1 = if j < k { j } else { j + 1 };
                assert(w[i] == levels[i1] && w[j] == levels[j1]);
                assert(levels[i1].0 > levels[j1].0);
            }
        }
        assert forall|i: int| 0 <= i < w.len() implies volume(#[trigger] w[i].1) > 0
            && distinct_ids(w[i].1) by {
            let i1 = if i < k { i } else { i + 1 };
            assert(w[i] == levels[i1]);
        }
        assert forall|i: int, j: int|
            0 <= i < w.len() && 0 <= j < w[i].1.len() implies {
            &&& index2.contains_key((#[trigger] w[i].1[j]).id)
            &&& index2[w[i].1[j].id] == (w[i].0, side)
        } by {
            let i1 = if i < k { i } else { i + 1 };
            assert(w[i] == levels[i1]);
            assert(index.contains_key(levels[i1].1[j].id));
            assert(!cset.contains(levels[i1].1[j].id));
        }
        assert forall|id2: u128|
            #[trigger] index2.contains_key(id2) && index2[id2].1 == side implies level_contains(
            w,
            index2[id2].0,
            id2,
        ) by {
            assert(index.contains_key(id2) && index2[id2] == index[id2]);
            let i1 = choose|i1: int|
                0 <= i1 < levels.len() && (#[trigger] levels[i1]).0 == index[id2].0 && order_ids(
                    levels[i1].1,
                ).contains(id2);
            assert(i1 != k) by {
                if i1 == k {
                    assert(cset.contains(id2));
                }
            }
            let i2 = if i1 < k { i1 } else { i1 - 1 };
            assert(w[i2] == levels[i1]);
            assert(level_contains(w, index[id2].0, id2));
        }
    }
    // the untouched side keeps its indexing and coverage
    assert forall|i: int, j: int|
        0 <= i < other.len() && 0 <= j < other[i].1.len() implies {
        &&& index2.contains_key((#[trigger] other[i].1[j]).id)
        &&& index2[other[i].1[j].id] == (other[i].0, opp)
    } by {
        let id2 = other[i].1[j].id;
        assert(index.contains_key(id2) && index[id2] == (other[i].0, opp));
        if cset.contains(id2) {
            assert(index[id2] == (price, side));
        }
    }
    assert forall|id2: u128|
        #[trigger] index2.contains_key(id2) && index2[id2].1 == opp implies level_contains(
        other,
        index2[id2].0,
        id2,
    ) by {
        assert(index.contains_key(id2) && index2[id2] == index[id2]);
    }
}

/// Filling against one side preserves every structural invariant of the
/// book, once the identities of the drained levels leave the index with
/// their levels.
proof fn lemma_wf_after_fill(
    levels: Seq<LevelView>,
    other: Seq<LevelView>,
    index: Map<u128, (u64, BidOrAsk)>,
    side: BidOrAsk,
    opp: BidOrAsk,
    ascending: bool,
    m: int,
)
    requires
        m >= 0,
        side != opp,
        ascending ==> sorted_ascending(levels),
        !ascending ==> sorted_descending(levels),
        positive_volumes(levels),
        distinct_each_level(levels),
        side_indexed(levels, index, side),
        side_indexed(other, index, opp),
        index_covers_side(index, levels, side),
        index_covers_side(index, other, opp),
    ensures
        ({
            let w = book_fill(levels, m);
            let index2 = index.remove_keys(drained_ids(levels, m));
            &&& (ascending ==> sorted_ascending(w))
            &&& (!ascending ==> sorted_descending(w))
            &&& positive_volumes(w)
            &&& distinct_each_level(w)
            &&& side_indexed(w, index2, side)
            &&& index_covers_side(index2, w, side)
            &&& side_indexed(other, index2, opp)
            &&& index_covers_side(index2, other, opp)
        }),
{
    let w = book_fill(levels, m);
    let k = drained_count(levels, m);
    let dids = drained_ids(levels, m);
    let index2 = index.remove_keys(dids);
    lemma_book_fill_shape(levels, m);
    // prices of the result are the suffix's prices
    assert forall|i: int| 0 <= i < w.len() implies (#[trigger] w[i]).0 == levels[k + i].0 by {
        if i >= 1 {
            assert(w[i] == levels[k + i]);
        }
    }
    if ascending {
        assert forall|i: int, j: int| 0 <= i < j < w.len() implies (#[trigger] w[i]).0 < (
        #[trigger] w[j]).0 by {
            assert(levels[k + i].0 < levels[k + j].0);
        }
    } else {
        assert forall|i: int, j: int| 0 <= i < j < w.len() implies (#[trigger] w[i]).0 > (
        #[trigger] w[j]).0 by {
            assert(levels[k + i].0 > levels[k + j].0);
        }
    }
    assert forall|i: int| 0 <= i < w.len() implies volume(#[trigger] w[i].1) > 0 by {
        if i >= 1 {
            assert(w[i] == levels[k + i]);
        }
    }
    assert forall|i: int| 0 <= i < w.len() implies distinct_ids(#[trigger] w[i].1) by {
        if i >= 1 {
            assert(w[i] == levels[k + i]);
        } else {
            assert(distinct_ids(levels[k].1));
            assert forall|j1: int, j2: int|
                0 <= j1 < j2 < w[0].1.len() implies w[0].1[j1].id != w[0].1[j2].id by {
                assert(w[0].1[j1].id == levels[k].1[j1].id);
                assert(w[0].1[j2].id == levels[k].1[j2].id);
            }
        }
    }
    // every order of the result keeps its identity and level price
    assert forall|i: int, j: int|
        0 <= i < w.len() && 0 <= j < w[i].1.len() implies order_ids(
        levels[k + i].1,
    ).contains((#[trigger] w[i].1[j]).id) && index.contains_key(w[i].1[j].id)
        && index[w[i].1[j].id] == (w[i].0, side) by {
        if i >= 1 {
            assert(w[i] == levels[k + i]);
            assert(index.contains_key(levels[k + i].1[j].id));
        } else {
            assert(w[0].1[j].id == levels[k].1[j].id);
            assert(index.contains_key(levels[k].1[j].id));
        }
    }
    // an identity in a surviving level is not drained: its index entry names
    // a single price, and prices are strictly ordered
    assert forall|i: int, j: int|
        0 <= i < w.len() && 0 <= j < w[i].1.len() implies !dids.contains(
        (#[trigger] w[i].1[j]).id) by {
        let id = w[i].1[j].id;
        if dids.contains(id) {
            let j0 = choose|j0: int| 0 <= j0 < k && order_ids(#[trigger] levels[j0].1).contains(id);
            let j1 = choose|j1: int| 0 <= j1 < levels[j0].1.len() && levels[j0].1[j1].id == id;
            assert(index[levels[j0].1[j1].id] == (levels[j0].0, side));
            assert(index[id] == (w[i].0, side));
            assert(levels[j0].0 == levels[k + i].0);
            if ascending {
                assert(levels[j0].0 < levels[k + i].0);
            } else {
                assert(levels[j0].0 > levels[k + i].0);
            }
        }
    }
    assert forall|i: int, j: int|
        0 <= i < w.len() && 0 <= j < w[i].1.len() implies {
        &&& index2.contains_key((#[trigger] w[i].1[j]).id)
        &&& index2[w[i].1[j].id] == (w[i].0, side)
    } by {
        assert(!dids.contains(w[i].1[j].id));
    }
    // drained identities are all tagged with this side
    assert forall|id: u128| #[trigger] dids.contains(id) implies index.contains_key(id)
        && index[id].1 == side by {
        let j0 = choose|j0: int| 0 <= j0 < k && order_ids(#[trigger] levels[j0].1).contains(id);
        let j1 = choose|j1: int| 0 <= j1 < levels[j0].1.len() && levels[j0].1[j1].id == id;
        assert(index.contains_key(levels[j0].1[j1].id));
        assert(index[levels[j0].1[j1].id] == (levels[j0].0, side));
    }
    // the untouched side stays indexed and covered
    assert forall|i: int, j: int|
        0 <= i < other.len() && 0 <= j < other[i].1.len() implies {
        &&& index2.contains_key((#[trigger] other[i].1[j]).id)
        &&& index2[other[i].1[j].id] == (other[i].0, opp)
    } by {
        let id = other[i].1[j].id;
        assert(index.contains_key(id) && index[id] == (other[i].0, opp));
        if dids.contains(id) {
            assert(index[id].1 == side);
        }
    }
    assert forall|id: u128|
        #[trigger] index2.contains_key(id) && index2[id].1 == opp implies level_contains(
        other,
        index2[id].0,
        id,
    ) by {
        assert(index.contains_key(id) && index2[id] == index[id]);
    }
    // surviving index entries of this side still resolve
    assert forall|id: u128|
        #[trigger] index2.contains_key(id) && index2[id].1 == side implies level_contains(
        w,
        index2[id].0,
        id,
    ) by {
        assert(index.contains_key(id) && index2[id] == index[id]);
        assert(level_contains(levels, index[id].0, id));
        let i0 = choose|i0: int|
            0 <= i0 < levels.len() && (#[trigger] levels[i0]).0 == index[id].0 && order_ids(
                levels[i0].1,
            ).contains(id);
        if i0 < k {
            assert(dids.contains(id));
            assert(false);
        } else {
            let i1 = i0 - k;
            assert(w[i1].0 == levels[i0].0);
            if i1 >= 1 {
                assert(w[i1] == levels[i0]);
            } else {
                let j1 = choose|j1: int|
                    0 <= j1 < levels[i0].1.len() && levels[i0].1[j1].id == id;
                assert(w[0].1[j1].id == levels[k].1[j1].id);
                assert(order_ids(w[0].1).contains(id));
            }
            assert(level_contains(w, index[id].0, id));
        }
    }
}

/// Resting a fresh order on one side (`v`, which becomes `w`) preserves every
/// structural invariant of the book, and the order is then found at its
/// price.
proof fn lemma_wf_after_add(
    v: Seq<LevelView>,
    other: Seq<LevelView>,
    index: Map<u128, (u64, BidOrAsk)>,
    side: BidOrAsk,
    opp: BidOrAsk,
    ascending: bool,
    price: u64,
    order: Order,
    k: int,
    w: Seq<LevelView>,
)
    requires
        side != opp,
        ascending ==> sorted_ascending(v),
        !ascending ==> sorted_descending(v),
        positive_volumes(v),
        distinct_each_level(v),
        side_indexed(v, index, side),
        side_indexed(other, index, opp),
        index_covers_side(index, v, side),
        index_covers_side(index, other, opp),
        order.size > 0,
        !index.contains_key(order.id),
        0 <= k <= v.len(),
        forall|l: int|
            0 <= l < k ==> ((ascending ==> (#[trigger] v[l]).0 < price) && (!ascending ==> v[l].0
                > price)),
        (k < v.len() && v[k].0 == price && w == v.update(k, (price, v[k].1.push(order)))) || ({
            &&& w == v.take(k) + seq![(price, seq![order])] + v.skip(k)
            &&& (k < v.len() ==> v[k].0 != price)
            &&& (k < v.len() && ascending ==> v[k].0 > price)
            &&& (k < v.len() && !ascending ==> v[k].0 < price)
        }),
    ensures
        ascending ==> sorted_ascending(w),
        !ascending ==> sorted_descending(w),
        positive_volumes(w),
        distinct_each_level(w),
        side_indexed(w, index.insert(order.id, (price, side)), side),
        side_indexed(other, index.insert(order.id, (price, side)), opp),
        index_covers_side(index.insert(order.id, (price, side)), w, side),
        index_covers_side(index.insert(order.id, (price, side)), other, opp),
        level_contains(w, price, order.id),
{
    let index2 = index.insert(order.id, (price, side));
    // The fresh order's id rests nowhere: it is not indexed yet.
    assert forall|i: int, j: int|
        0 <= i < v.len() && 0 <= j < v[i].1.len() implies (#[trigger] v[i].1[j]).id != order.id by {
        assert(index.contains_key(v[i].1[j].id));
    }
    assert forall|i: int, j: int|
        0 <= i < other.len() && 0 <= j < other[i].1.len() implies (#[trigger] other[i].1[j]).id
        != order.id by {
        assert(index.contains_key(other[i].1[j].id));
    }
    if k < v.len() && v[k].0 == price && w == v.update(k, (price, v[k].1.push(order))) {
        // The order joined the tail of the existing level at its price.
        let q = v[k].1;
        lemma_volume_push(q, order);
        lemma_order_ids_push(q, order);
        assert(w[k].1 == q.push(order));
        assert forall|i: int| 0 <= i < w.len() implies volume(#[trigger] w[i].1) > 0 by {
            if i != k {
                assert(w[i] == v[i]);
            }
        }
        assert forall|i: int| 0 <= i < w.len() implies distinct_ids(#[trigger] w[i].1) by {
            if i != k {
                assert(w[i] == v[i]);
            } else {
                assert forall|j1: int, j2: int|
                    0 <= j1 < j2 < w[i].1.len() implies w[i].1[j1].id != w[i].1[j2].id by {
                    if j2 == q.len() {
                        assert(w[i].1[j1] == q[j1]);
                        assert(q[j1].id != order.id);
                    } else {
                        assert(w[i].1[j1] == q[j1] && w[i].1[j2] == q[j2]);
                    }
                }
            }
        }
        assert forall|i: int, j: int|
            0 <= i < w.len() && 0 <= j < w[i].1.len() implies {
            &&& index2.contains_key((#[trigger] w[i].1[j]).id)
            &&& index2[w[i].1[j].id] == (w[i].0, side)
        } by {
            if i == k && j == q.len() {
                assert(w[i].1[j] == order);
            } else {
                if i != k {
                    assert(w[i] == v[i]);
                } else {
                    assert(w[i].1[j] == q[j]);
                }
                assert(index.contains_key(v[i].1[j].id));
                assert(v[i].1[j].id != order.id);
            }
        }
        assert(order_ids(w[k].1).contains(order.id));
        assert(level_contains(w, price, order.id));
        assert forall|id: u128|
            #[trigger] index2.contains_key(id) && index2[id].1 == side implies level_contains(
            w,
            index2[id].0,
            id,
        ) by {
            if id == order.id {
                assert(level_contains(w, price, order.id));
            } else {
                assert(index.contains_key(id) && index2[id] == index[id]);
                let i0 = choose|i0: int|
                    0 <= i0 < v.len() && (#[trigger] v[i0]).0 == index[id].0 && order_ids(
                        v[i0].1,
                    ).contains(id);
                if i0 == k {
                    assert(order_ids(w[k].1).contains(id));
                    assert(w[k].0 == v[k].0);
                } else {
                    assert(w[i0] == v[i0]);
                }
                assert(level_contains(w, index[id].0, id));
            }
        }
        if ascending {
            assert forall|i: int, j: int| 0 <= i < j < w.len() implies (#[trigger] w[i]).0 < (
            #[trigger] w[j]).0 by {
                assert(w[i].0 == v[i].0 && w[j].0 == v[j].0);
            }
        } else {
            assert forall|i: int, j: int| 0 <= i < j < w.len() implies (#[trigger] w[i]).0 > (
            #[trigger] w[j]).0 by {
                assert(w[i].0 == v[i].0 && w[j].0 == v[j].0);
            }
        }
    } else {
        // A fresh single-order level takes position k in priority order.
        assert(w == v.take(k) + seq![(price, seq![order])] + v.skip(k));
        lemma_volume_singleton(order);
        lemma_order_ids_singleton(order);
        assert(w.len() == v.len() + 1);
        assert forall|i: int| 0 <= i < k implies w[i] == v[i] by {
            assert(w[i] == (v.take(k) + seq![(price, seq![order])] + v.skip(k))[i]);
        }
        assert(w[k] == (price, seq![order]));
        assert forall|i: int| k < i < w.len() implies w[i] == v[i - 1] by {
            assert(w[i] == (v.take(k) + seq![(price, seq![order])] + v.skip(k))[i]);
        }
        // strict priority order is kept around the inserted level
        if ascending {
            assert forall|i: int, j: int| 0 <= i < j < w.len() implies (#[trigger] w[i]).0 < (
            #[trigger] w[j]).0 by {
                if j < k {
                    assert(w[i] == v[i] && w[j] == v[j]);
                    assert(v[i].0 < v[j].0);
                } else if i < k && j == k {
                    assert(v[i].0 < price);
                } else if i < k && j > k {
                    assert(v[i].0 < price);
                    assert(w[j] == v[j - 1]);
                    if j - 1 == k {
                        assert(v[k].0 > price);
                    } else {
                        assert(v[k].0 > price);
                        assert(v[k].0 < v[j - 1].0);
                    }
                } else if i == k {
                    assert(w[j] == v[j - 1]);
                    if j - 1 == k {
                        assert(v[k].0 > price);
                    } else {
                        assert(v[k].0 > price);
                        assert(v[k].0 < v[j - 1].0);
                    }
                } else {
                    assert(w[i] == v[i - 1] && w[j] == v[j - 1]);
                    assert(v[i - 1].0 < v[j - 1].0);
                }
            }
        } else {
            assert forall|i: int, j: int| 0 <= i < j < w.len() implies (#[trigger] w[i]).0 > (
            #[trigger] w[j]).0 by {
                if j < k {
                    assert(w[i] == v[i] && w[j] == v[j]);
                    assert(v[i].0 > v[j].0);
                } else if i < k && j == k {
                    assert(v[i].0 > price);
                } else if i < k && j > k {
                    assert(v[i].0 > price);
                    assert(w[j] == v[j - 1]);
                    if j - 1 == k {
                        assert(v[k].0 < price);
                    } else {
                        assert(v[k].0 < price);
                        assert(v[k].0 > v[j - 1].0);
                    }
                } else if i == k {
                    assert(w[j] == v[j - 1]);
                    if j - 1 == k {
                        assert(v[k].0 < price);
                    } else {
                        assert(v[k].0 < price);
                        assert(v[k].0 > v[j - 1].0);
                    }
                } else {
                    assert(w[i] == v[i - 1] && w[j] == v[j - 1]);
                    assert(v[i - 1].0 > v[j - 1].0);
                }
            }
        }
        assert forall|i: int| 0 <= i < w.len() implies volume(#[trigger] w[i].1) > 0 by {
            if i < k {
                assert(w[i] == v[i]);
            } else if i > k {
                assert(w[i] == v[i - 1]);
            }
        }
        assert forall|i: int| 0 <= i < w.len() implies distinct_ids(#[trigger] w[i].1) by {
            if i < k {
                assert(w[i] == v[i]);
            } else if i > k {
                assert(w[i] == v[i - 1]);
            } else {
                assert(w[i].1 == seq![order]);
            }
        }
        assert forall|i: int, j: int|
            0 <= i < w.len() && 0 <= j < w[i].1.len() implies {
            &&& index2.contains_key((#[trigger] w[i].1[j]).id)
            &&& index2[w[i].1[j].id] == (w[i].0, side)
        } by {
            if i == k {
                assert(w[i].1 == seq![order]);
                assert(w[i].1[j] == order);
            } else {
                let i0 = if i < k { i } else { i - 1 };
                assert(w[i] == v[i0]);
                assert(index.contains_key(v[i0].1[j].id));
                assert(v[i0].1[j].id != order.id);
            }
        }
        assert(order_ids(w[k].1).contains(order.id));
        assert(level_contains(w, price, order.id));
        assert forall|id: u128|
            #[trigger] index2.contains_key(id) && index2[id].1 == side implies level_contains(
            w,
            index2[id].0,
            id,
        ) by {
            if id == order.id {
                assert(level_contains(w, price, order.id));
            } else {
                assert(index.contains_key(id) && index2[id] == index[id]);
                let i0 = choose|i0: int|
                    0 <= i0 < v.len() && (#[trigger] v[i0]).0 == index[id].0 && order_ids(
                        v[i0].1,
                    ).contains(id);
                let i1 = if i0 < k { i0 } else { i0 + 1 };
                assert(w[i1] == v[i0]);
                assert(level_contains(w, index[id].0, id));
            }
        }
    }
    // the untouched side keeps its indexing and coverage under the grown index
    assert forall|i: int, j: int|
        0 <= i < other.len() && 0 <= j < other[i].1.len() implies {
        &&& index2.contains_key((#[trigger] other[i].1[j]).id)
        &&& index2[other[i].1[j].id] == (other[i].0, opp)
    } by {
        assert(index.contains_key(other[i].1[j].id));
        assert(other[i].1[j].id != order.id);
    }
    assert forall|id: u128|
        #[trigger] index2.contains_key(id) && index2[id].1 == opp implies level_contains(
        other,
        index2[id].0,
        id,
    ) by {
        assert(id != order.id);
        assert(index.contains_key(id) && index2[id] == index[id]);
    }
}

/// Scans one side to the priority position of `price` and rests `order`
/// there: at the tail of the existing level with that price, or in a fresh
/// single-order level (`ascending` for asks, descending for bids).
fn place_in_levels(levels: &mut Vec<Limit>, price: u64, order: Order, ascending: bool) -> (k:
    usize)
    ensures
        ({
            let v = side_view(old(levels)@);
            let w = side_view(final(levels)@);
            &&& k <= v.len()
            &&& w == add_to_side(v, price, order, ascending)
            &&& (forall|l: int|
                0 <= l < k ==> ((ascending ==> (#[trigger] v[l]).0 < price) && (!ascending
                    ==> v[l].0 > price)))
            &&& ((k < v.len() && v[k as int].0 == price && w == v.update(
                k as int,
                (price, v[k as int].1.push(order)),
            )) || ({
                &&& w == v.take(k as int) + seq![(price, seq![order])] + v.skip(k as int)
                &&& (k < v.len() ==> v[k as int].0 != price)
                &&& (k < v.len() && ascending ==> v[k as int].0 > price)
                &&& (k < v.len() && !ascending ==> v[k as int].0 < price)
            }))
        }),
{
    let ghost v = side_view(levels@);
    let mut k: usize = 0;
    proof {
        assert(v.skip(0) =~= v);
        assert(v.take(0) + add_to_side(v, price, order, ascending) =~= add_to_side(
            v,
            price,
            order,
            ascending,
        ));
    }
    if ascending {
        while k < levels.len() && levels[k].price < price
            invariant
                levels@ == old(levels)@,
                v == side_view(levels@),
                k <= v.len(),
                forall|l: int| 0 <= l < k ==> (#[trigger] v[l]).0 < price,
                add_to_side(v, price, order, true) == v.take(k as int) + add_to_side(
                    v.skip(k as int),
                    price,
                    order,
                    true,
                ),
            decreases v.len() - k,
        {
            proof {
                assert(v[k as int].0 == levels@[k as int].price);
                assert(v.skip(k as int)[0] == v[k as int]);
                assert(v.skip(k as int).skip(1) =~= v.skip(k + 1));
                assert(v.take(k + 1) =~= v.take(k as int) + seq![v[k as int]]);
                let rest = add_to_side(v.skip(k + 1), price, order, true);
                assert(add_to_side(v.skip(k as int), price, order, true) == seq![v[k as int]]
                    + rest);
                assert(v.take(k as int) + (seq![v[k as int]] + rest) =~= (v.take(k as int)
                    + seq![v[k as int]]) + rest);
            }
            k = k + 1;
        }
    } else {
        while k < levels.len() && levels[k].price > price
            invariant
                levels@ == old(levels)@,
                v == side_view(levels@),
                k <= v.len(),
                forall|l: int| 0 <= l < k ==> (#[trigger] v[l]).0 > price,
                add_to_side(v, price, order, false) == v.take(k as int) + add_to_side(
                    v.skip(k as int),
                    price,
                    order,
                    false,
                ),
            decreases v.len() - k,
        {
            proof {
                assert(v[k as int].0 == levels@[k as int].price);
                assert(v.skip(k as int)[0] == v[k as int]);
                assert(v.skip(k as int).skip(1) =~= v.skip(k + 1));
                assert(v.take(k + 1) =~= v.take(k as int) + seq![v[k as int]]);
                let rest = add_to_side(v.skip(k + 1), price, order, false);
                assert(add_to_side(v.skip(k as int), price, order, false) == seq![v[k as int]]
                    + rest);
                assert(v.take(k as int) + (seq![v[k as int]] + rest) =~= (v.take(k as int)
                    + seq![v[k as int]]) + rest);
            }
            k = k + 1;
        }
    }
    proof {
        if k < v.len() {
            assert(v[k as int].0 == levels@[k as int].price);
        }
        assert(v.skip(k as int).len() == v.len() - k);
        if k < v.len() {
            assert(v.skip(k as int)[0] == v[k as int]);
            assert(v.skip(k as int).skip(1) =~= v.skip(k + 1));
        }
    }
    if k < levels.len() && levels[k].price == price {
        let lim = &mut levels[k];
        lim.add_order(order);
        proof {
            assert(side_view(levels@) =~~= v.update(
                k as int,
                (price, v[k as int].1.push(order)),
            ));
            assert(add_to_side(v.skip(k as int), price, order, ascending) == seq![
                (price, v[k as int].1.push(order)),
            ] + v.skip(k + 1));
            assert(v.take(k as int) + (seq![(price, v[k as int].1.push(order))] + v.skip(k + 1))
                =~~= v.update(k as int, (price, v[k as int].1.push(order))));
        }
    } else {
        let mut lim = Limit::new(price);
        lim.add_order(order);
        levels.insert(k, lim);
        proof {
            assert(lim.orders@ =~= seq![order]);
            assert(side_view(levels@) =~~= v.take(k as int) + seq![(price, seq![order])] + v.skip(
                k as int,
            ));
            if v.skip(k as int).len() == 0 {
                assert(add_to_side(v.skip(k as int), price, order, ascending) == seq![
                    (price, seq![order]),
                ]);
                assert(v.take(k as int) + seq![(price, seq![order])] + v.skip(k as int) =~~= v.take(
                    k as int,
                ) + add_to_side(v.skip(k as int), price, order, ascending));
            } else {
                assert(add_to_side(v.skip(k as int), price, order, ascending) == seq![
                    (price, seq![order]),
                ] + v.skip(k as int));
                assert(v.take(k as int) + (seq![(price, seq![order])] + v.skip(k as int)) =~~= (
                v.take(k as int) + seq![(price, seq![order])]) + v.skip(k as int));
            }
        }
    }
    k
}

/// Walks one side's levels front to back (priority order, since each side is
/// kept sorted), fills each against the market order, and removes each level
/// it drains together with that level's entries in the identity index.
fn fill_side(
    levels: &mut Vec<Limit>,
    index: &mut HashMap<u128, (u64, BidOrAsk)>,
    market_order: &mut Order,
)
    ensures
        side_view(final(levels)@) == book_fill(
            side_view(old(levels)@),
            old(market_order).size as int,
        ),
        final(market_order).size as int == book_remaining(
            side_view(old(levels)@),
            old(market_order).size as int,
        ),
        final(index)@ == old(index)@.remove_keys(
            drained_ids(side_view(old(levels)@), old(market_order).size as int),
        ),
        final(market_order).id == old(market_order).id,
        final(market_order).bid_or_ask == old(market_order).bid_or_ask,
{
    let ghost v0 = side_view(levels@);
    let ghost m0 = market_order.size as int;
    let ghost i0 = index@;
    let ghost oid = market_order.id;
    let ghost osd = market_order.bid_or_ask;
    while market_order.size > 0 && levels.len() > 0
        invariant
            v0 == side_view(old(levels)@),
            m0 == old(market_order).size as int,
            i0 == old(index)@,
            market_order.id == oid,
            market_order.bid_or_ask == osd,
            oid == old(market_order).id,
            osd == old(market_order).bid_or_ask,
            book_fill(v0, m0) == book_fill(side_view(levels@), market_order.size as int),
            book_remaining(v0, m0) == book_remaining(
                side_view(levels@),
                market_order.size as int,
            ),
            i0.remove_keys(drained_ids(v0, m0)) == index@.remove_keys(
                drained_ids(side_view(levels@), market_order.size as int),
            ),
        decreases levels@.len() + (if market_order.size > 0 { 1int } else { 0int }),
    {
        let ghost pre = side_view(levels@);
        let ghost pre_m = market_order.size as int;
        let ghost pre_idx = index@;
        let ghost q = levels@[0].orders@;
        proof {
            assert(pre[0] == (levels@[0].price, q));
            lemma_fill_conservation(q, pre_m);
            lemma_volume_bounds(q);
        }
        let lim = &mut levels[0];
        lim.fill_order(market_order);
        proof {
            assert(side_view(levels@) =~~= pre.update(
                0,
                (pre[0].0, orders_after_fill(q, pre_m)),
            ));
        }
        if levels[0].total_volume() == 0 {
            // the level is drained: its identities leave the index with it
            proof {
                assert(pre_m >= volume(q));
                assert(market_order.size as int == pre_m - volume(q));
            }
            let ghost lv = levels@;
            let n = levels[0].orders.len();
            let mut j: usize = 0;
            proof {
                lemma_order_ids_empty(levels@[0].orders@.take(0));
                assert(pre_idx.remove_keys(Set::<u128>::empty()) =~= pre_idx);
            }
            while j < n
                invariant
                    j <= n,
                    levels@ == lv,
                    0 < lv.len(),
                    n == lv[0].orders@.len(),
                    index@ == pre_idx.remove_keys(order_ids(lv[0].orders@.take(j as int))),
                decreases n - j,
            {
                let id_j = levels[0].orders[j].id;
                index.remove(&id_j);
                proof {
                    let tj = lv[0].orders@.take(j as int);
                    assert(lv[0].orders@.take(j + 1) =~= tj.push(lv[0].orders@[j as int]));
                    lemma_order_ids_push(tj, lv[0].orders@[j as int]);
                    assert(pre_idx.remove_keys(order_ids(tj)).remove(id_j) =~= pre_idx.remove_keys(
                        order_ids(tj).insert(id_j),
                    ));
                }
                j = j + 1;
            }
            proof {
                assert(lv[0].orders@.take(n as int) =~= lv[0].orders@);
                lemma_order_ids_pointwise(orders_after_fill(q, pre_m), q);
                assert(lv[0].orders@ == orders_after_fill(q, pre_m));
                assert(index@ == pre_idx.remove_keys(order_ids(q)));
            }
            levels.remove(0);
            proof {
                assert(side_view(levels@) =~~= pre.skip(1));
                assert(book_fill(pre, pre_m) == book_fill(pre.skip(1), pre_m - volume(q)));
                assert(book_remaining(pre, pre_m) == book_remaining(
                    pre.skip(1),
                    pre_m - volume(q),
                ));
                assert(drained_ids(pre, pre_m) == order_ids(q).union(
                    drained_ids(pre.skip(1), pre_m - volume(q)),
                ));
                assert(pre_idx.remove_keys(drained_ids(pre, pre_m)) =~= pre_idx.remove_keys(
                    order_ids(q),
                ).remove_keys(drained_ids(pre.skip(1), pre_m - volume(q))));
            }
        } else {
            proof {
                assert(pre_m < volume(q));
                assert(market_order.size == 0);
                assert(book_fill(pre, pre_m) == seq![(pre[0].0, orders_after_fill(q, pre_m))]
                    + pre.skip(1));
                assert(book_fill(pre, pre_m) =~~= side_view(levels@));
                assert(book_fill(side_view(levels@), 0) == side_view(levels@));
                assert(book_remaining(pre, pre_m) == 0);
                assert(drained_ids(pre, pre_m) == Set::<u128>::empty());
                assert(drained_ids(side_view(levels@), 0) == Set::<u128>::empty());
            }
        }
    }
    proof {
        let cur = side_view(levels@);
        let cm = market_order.size as int;
        if market_order.size == 0 {
            assert(book_fill(cur, 0) == cur);
            assert(book_remaining(cur, 0) == 0);
            assert(drained_ids(cur, 0) == Set::<u128>::empty());
        } else {
            assert(levels@.len() == 0);
            assert(cur.len() == 0);
            assert(book_fill(cur, cm) == cur);
            assert(book_remaining(cur, cm) == cm);
            assert(drained_ids(cur, cm) == Set::<u128>::empty());
        }
        assert(index@.remove_keys(Set::<u128>::empty()) =~= index@);
    }
}

/// Cancels `id` inside the level carrying `price` on one side: the level
/// loses the order, leaves the book if no unfilled quantity remains in it,
/// and the index drops every identity that left the book.
fn cancel_in_levels(
    levels: &mut Vec<Limit>,
    index: &mut HashMap<u128, (u64, BidOrAsk)>,
    price: u64,
    id: u128,
) -> (k: usize)
    requires
        exists|i: int| 0 <= i < old(levels)@.len() && (#[trigger] old(levels)@[i]).price == price,
    ensures
        ({
            let v = side_view(old(levels)@);
            let w = side_view(final(levels)@);
            let q2 = remove_first_id(v[k as int].1, id);
            &&& k < v.len()
            &&& v[k as int].0 == price
            &&& (forall|l: int| 0 <= l < k ==> (#[trigger] v[l]).0 != price)
            &&& w == cancel_in_side(v, price, id)
            &&& final(index)@ == old(index)@.remove_keys(cancelled_ids(v, price, id))
            &&& ((volume(q2) > 0 && w == v.update(k as int, (price, q2)) && cancelled_ids(
                v,
                price,
                id,
            ) == Set::<u128>::empty().insert(id)) || (volume(q2) <= 0 && w == v.remove(k as int)
                && cancelled_ids(v, price, id) == order_ids(q2).insert(id)))
        }),
{
    let ghost v = side_view(levels@);
    let mut k: usize = 0;
    proof {
        assert(v.skip(0) =~= v);
        assert(v.take(0) + cancel_in_side(v, price, id) =~= cancel_in_side(v, price, id));
        let iw = choose|i: int| 0 <= i < levels@.len() && (#[trigger] levels@[i]).price == price;
        assert(v[iw].0 == price);
    }
    while k < levels.len() && levels[k].price != price
        invariant
            levels@ == old(levels)@,
            index@ == old(index)@,
            v == side_view(levels@),
            k <= v.len(),
            exists|i: int| k <= i < v.len() && (#[trigger] v[i]).0 == price,
            forall|l: int| 0 <= l < k ==> (#[trigger] v[l]).0 != price,
            cancel_in_side(v, price, id) == v.take(k as int) + cancel_in_side(
                v.skip(k as int),
                price,
                id,
            ),
            cancelled_ids(v, price, id) == cancelled_ids(v.skip(k as int), price, id),
        decreases v.len() - k,
    {
        proof {
            assert(v[k as int].0 == levels@[k as int].price);
            assert(v.skip(k as int)[0] == v[k as int]);
            assert(v.skip(k as int).skip(1) =~= v.skip(k + 1));
            assert(v.take(k + 1) =~= v.take(k as int) + seq![v[k as int]]);
            let rest = cancel_in_side(v.skip(k + 1), price, id);
            assert(cancel_in_side(v.skip(k as int), price, id) == seq![v[k as int]] + rest);
            assert(v.take(k as int) + (seq![v[k as int]] + rest) =~= (v.take(k as int) + seq![
                v[k as int],
            ]) + rest);
            let iw = choose|i: int| k <= i < v.len() && (#[trigger] v[i]).0 == price;
            assert(iw != k);
            assert(k + 1 <= iw < v.len());
        }
        k = k + 1;
    }
    proof {
        assert(v[k as int].0 == levels@[k as int].price);
        assert(v.skip(k as int)[0] == v[k as int]);
        assert(v.skip(k as int).skip(1) =~= v.skip(k + 1));
    }
    let ghost q = levels@[k as int].orders@;
    let lim = &mut levels[k];
    lim.cancel_order(id);
    proof {
        assert(side_view(levels@) =~~= v.update(k as int, (price, remove_first_id(q, id))));
    }
    let ghost q2 = remove_first_id(q, id);
    let ghost pre_idx = index@;
    if levels[k].total_volume() == 0 {
        // the level is exhausted: it leaves the book with its identities
        let ghost lv = levels@;
        let n = levels[k].orders.len();
        let mut j: usize = 0;
        proof {
            lemma_order_ids_empty(lv[k as int].orders@.take(0));
            assert(pre_idx.remove_keys(Set::<u128>::empty()) =~= pre_idx);
        }
        while j < n
            invariant
                j <= n,
                levels@ == lv,
                k < lv.len(),
                n == lv[k as int].orders@.len(),
                index@ == pre_idx.remove_keys(order_ids(lv[k as int].orders@.take(j as int))),
            decreases n - j,
        {
            let id_j = levels[k].orders[j].id;
            index.remove(&id_j);
            proof {
                let tj = lv[k as int].orders@.take(j as int);
                assert(lv[k as int].orders@.take(j + 1) =~= tj.push(lv[k as int].orders@[j as int]));
                lemma_order_ids_push(tj, lv[k as int].orders@[j as int]);
                assert(pre_idx.remove_keys(order_ids(tj)).remove(id_j) =~= pre_idx.remove_keys(
                    order_ids(tj).insert(id_j),
                ));
            }
            j = j + 1;
        }
        index.remove(&id);
        levels.remove(k);
        proof {
            assert(lv[k as int].orders@.take(n as int) =~= lv[k as int].orders@);
            assert(lv[k as int].orders@ == q2);
            assert(pre_idx.remove_keys(order_ids(q2)).remove(id) =~= pre_idx.remove_keys(
                order_ids(q2).insert(id),
            ));
            assert(side_view(levels@) =~~= v.remove(k as int));
            assert(cancel_in_side(v.skip(k as int), price, id) == v.skip(k + 1));
            assert(v.take(k as int) + v.skip(k + 1) =~~= v.remove(k as int));
            assert(cancelled_ids(v.skip(k as int), price, id) == order_ids(q2).insert(id));
        }
    } else {
        index.remove(&id);
        proof {
            assert(pre_idx.remove(id) =~= pre_idx.remove_keys(Set::<u128>::empty().insert(id)));
            assert(cancel_in_side(v.skip(k as int), price, id) == seq![(price, q2)] + v.skip(
                k + 1,
            ));
            assert(v.take(k as int) + (seq![(price, q2)] + v.skip(k + 1)) =~~= v.update(
                k as int,
                (price, q2),
            ));
            assert(cancelled_ids(v.skip(k as int), price, id) == Set::<u128>::empty().insert(id));
        }
    }
    k
}

impl Orderbook {
    /// The structural invariants of a book: both sides in strict priority
    /// order, no emptied level retained, every resting order indexed under
    /// its level, and every index entry resolving to exactly one resting
    /// order.
    pub open spec fn wf(&self) -> bool {
        wf_views(self@.asks, self@.bids, self@.index)
    }

    /// A fresh, empty book.
    pub fn new() -> (r: Orderbook)
        ensures
            r.wf(),
            r@.asks == Seq::<LevelView>::empty(),
            r@.bids == Seq::<LevelView>::empty(),
            r@.index == Map::<u128, (u64, BidOrAsk)>::empty(),
    {
        let r = Orderbook { asks: Vec::new(), bids: Vec::new(), order_map: HashMap::new() };
        proof {
            assert(side_view(r.asks@) =~= Seq::<LevelView>::empty());
            assert(side_view(r.bids@) =~= Seq::<LevelView>::empty());
        }
        r
    }

    /// The ask-side levels in matching priority order: ascending price,
    /// best (cheapest) first.
    pub fn ask_limits(&self) -> (r: Vec<Limit>)
        ensures
            side_view(r@) == self@.asks,
            self.wf() ==> sorted_ascending(side_view(r@)),
    {
        let mut r: Vec<Limit> = Vec::new();
        let mut i: usize = 0;
        while i < self.asks.len()
            invariant
                i <= self.asks.len(),
                r@.len() == i,
                side_view(r@) == side_view(self.asks@).take(i as int),
            decreases self.asks.len() - i,
        {
            r.push(self.asks[i].clone());
            proof {
                assert(side_view(r@) =~~= side_view(self.asks@).take(i + 1));
            }
            i = i + 1;
        }
        proof {
            assert(side_view(self.asks@).take(self.asks@.len() as int) =~~= side_view(self.asks@));
        }
        r
    }

    /// The bid-side levels in matching priority order: descending price,
    /// best (highest) first.
    pub fn bid_limits(&self) -> (r: Vec<Limit>)
        ensures
            side_view(r@) == self@.bids,
            self.wf() ==> sorted_descending(side_view(r@)),
    {
        let mut r: Vec<Limit> = Vec::new();
        let mut i: usize = 0;
        while i < self.bids.len()
            invariant
                i <= self.bids.len(),
                r@.len() == i,
                side_view(r@) == side_view(self.bids@).take(i as int),
            decreases self.bids.len() - i,
        {
            r.push(self.bids[i].clone());
            proof {
                assert(side_view(r@) =~~= side_view(self.bids@).take(i + 1));
            }
            i = i + 1;
        }
        proof {
            assert(side_view(self.bids@).take(self.bids@.len() as int) =~~= side_view(self.bids@));
        }
        r
    }

    /// Rests a limit order passively at `price` on the order's own side:
    /// the order joins the tail of that price's level (or founds it), and its
    /// identity is recorded in the index for later cancellation.  No crossing
    /// check is made against the opposite side.
    pub fn add_limit_order(&mut self, price: u64, order: Order)
        requires
            old(self).wf(),
            order.size > 0,
            !old(self)@.index.contains_key(order.id),
        ensures
            final(self).wf(),
            final(self)@.index == old(self)@.index.insert(order.id, (price, order.bid_or_ask)),
            order.bid_or_ask == BidOrAsk::Bid ==> final(self)@.bids == add_to_side(
                old(self)@.bids,
                price,
                order,
                false,
            ) && final(self)@.asks == old(self)@.asks,
            order.bid_or_ask == BidOrAsk::Ask ==> final(self)@.asks == add_to_side(
                old(self)@.asks,
                price,
                order,
                true,
            ) && final(self)@.bids == old(self)@.bids,
    {
        let ghost b0 = self@;
        let order_id = order.id;
        let bid_or_ask = order.bid_or_ask;
        let k: usize = match order.bid_or_ask {
            BidOrAsk::Bid => place_in_levels(&mut self.bids, price, order, false),
            BidOrAsk::Ask => place_in_levels(&mut self.asks, price, order, true),
        };
        self.order_map.insert(order_id, (price, bid_or_ask));
        proof {
            if bid_or_ask == BidOrAsk::Bid {
                lemma_wf_after_add(
                    b0.bids,
                    b0.asks,
                    b0.index,
                    BidOrAsk::Bid,
                    BidOrAsk::Ask,
                    false,
                    price,
                    order,
                    k as int,
                    self@.bids,
                );
            } else {
                lemma_wf_after_add(
                    b0.asks,
                    b0.bids,
                    b0.index,
                    BidOrAsk::Ask,
                    BidOrAsk::Bid,
                    true,
                    price,
                    order,
                    k as int,
                    self@.asks,
                );
            }
        }
    }

    /// Executes a market order against the opposite side: a Bid consumes
    /// asks cheapest level first, an Ask consumes bids highest level first;
    /// within each level strictly FIFO.  Stops when the order is filled or
    /// the side runs out of liquidity; a partially filled order simply keeps
    /// its remainder, which the caller reads through `is_filled`.  Levels it
    /// drains leave the book, and their identities leave the index.
    pub fn fill_market_order(&mut self, market_order: &mut Order)
        requires
            old(self).wf(),
        ensures
            final(self).wf(),
            final(market_order).id == old(market_order).id,
            final(market_order).bid_or_ask == old(market_order).bid_or_ask,
            old(market_order).bid_or_ask == BidOrAsk::Bid ==> {
                &&& final(self)@.asks == book_fill(
                    old(self)@.asks,
                    old(market_order).size as int,
                )
                &&& final(self)@.bids == old(self)@.bids
                &&& final(market_order).size as int == book_remaining(
                    old(self)@.asks,
                    old(market_order).size as int,
                )
                &&& final(self)@.index == old(self)@.index.remove_keys(
                    drained_ids(old(self)@.asks, old(market_order).size as int),
                )
            },
            old(market_order).bid_or_ask == BidOrAsk::Ask ==> {
                &&& final(self)@.bids == book_fill(
                    old(self)@.bids,
                    old(market_order).size as int,
                )
                &&& final(self)@.asks == old(self)@.asks
                &&& final(market_order).size as int == book_remaining(
                    old(self)@.bids,
                    old(market_order).size as int,
                )
                &&& final(self)@.index == old(self)@.index.remove_keys(
                    drained_ids(old(self)@.bids, old(market_order).size as int),
                )
            },
    {
        let ghost b0 = self@;
        let ghost m0 = market_order.size as int;
        match market_order.bid_or_ask {
            BidOrAsk::Bid => {
                fill_side(&mut self.asks, &mut self.order_map, market_order);
                proof {
                    lemma_wf_after_fill(
                        b0.asks,
                        b0.bids,
                        b0.index,
                        BidOrAsk::Ask,
                        BidOrAsk::Bid,
                        true,
                        m0,
                    );
                }
            },
            BidOrAsk::Ask => {
                fill_side(&mut self.bids, &mut self.order_map, market_order);
                proof {
                    lemma_wf_after_fill(
                        b0.bids,
                        b0.asks,
                        b0.index,
                        BidOrAsk::Bid,
                        BidOrAsk::Ask,
                        false,
                        m0,
                    );
                }
            },
        }
    }

    /// Cancels a resting order by identity: looks the identity up in the
    /// index, removes the order from its level, removes the level if no
    /// unfilled quantity remains in it, and drops from the index every
    /// identity that left the book.  Reports whether the identity was known;
    /// an unknown identity changes nothing.
    pub fn cancel_limited_order(&mut self, id: u128) -> (found: bool)
        requires
            old(self).wf(),
        ensures
            final(self).wf(),
            found == old(self)@.index.contains_key(id),
            !found ==> final(self)@.asks == old(self)@.asks && final(self)@.bids == old(
                self,
            )@.bids && final(self)@.index == old(self)@.index,
            found ==> ({
                let price = old(self)@.index[id].0;
                let side = old(self)@.index[id].1;
                &&& (side == BidOrAsk::Bid ==> final(self)@.bids == cancel_in_side(
                    old(self)@.bids,
                    price,
                    id,
                ) && final(self)@.asks == old(self)@.asks && final(self)@.index == old(
                    self,
                )@.index.remove_keys(cancelled_ids(old(self)@.bids, price, id)))
                &&& (side == BidOrAsk::Ask ==> final(self)@.asks == cancel_in_side(
                    old(self)@.asks,
                    price,
                    id,
                ) && final(self)@.bids == old(self)@.bids && final(self)@.index == old(
                    self,
                )@.index.remove_keys(cancelled_ids(old(self)@.asks, price, id)))
            }),
    {
        let ghost b0 = self@;
        let price: u64;
        let side: BidOrAsk;
        match self.order_map.get(&id) {
            None => {
                return false;
            },
            Some(entry) => {
                price = entry.0;
                side = entry.1;
            },
        }
        proof {
            assert(b0.index.contains_key(id) && b0.index[id] == (price, side));
        }
        match side {
            BidOrAsk::Bid => {
                proof {
                    assert(level_contains(b0.bids, price, id));
                    let i0 = choose|i0: int|
                        0 <= i0 < b0.bids.len() && (#[trigger] b0.bids[i0]).0 == price
                            && order_ids(b0.bids[i0].1).contains(id);
                    assert(self.bids@[i0].price == price);
                }
                let k = cancel_in_levels(&mut self.bids, &mut self.order_map, price, id);
                proof {
                    lemma_wf_after_cancel(
                        b0.bids,
                        b0.asks,
                        b0.index,
                        BidOrAsk::Bid,
                        BidOrAsk::Ask,
                        false,
                        price,
                        id,
                        k as int,
                        self@.bids,
                        cancelled_ids(b0.bids, price, id),
                    );
                }
            },
            BidOrAsk::Ask => {
                proof {
                    assert(level_contains(b0.asks, price, id));
                    let i0 = choose|i0: int|
                        0 <= i0 < b0.asks.len() && (#[trigger] b0.asks[i0]).0 == price
                            && order_ids(b0.asks[i0].1).contains(id);
                    assert(self.asks@[i0].price == price);
                }
                let k = cancel_in_levels(&mut self.asks, &mut self.order_map, price, id);
                proof {
                    lemma_wf_after_cancel(
                        b0.asks,
                        b0.bids,
                        b0.index,
                        BidOrAsk::Ask,
                        BidOrAsk::Bid,
                        true,
                        price,
                        id,
                        k as int,
                        self@.asks,
                        cancelled_ids(b0.asks, price, id),
                    );
                }
            },
        }
        true
    }
}

/// The first book invariant as a law: in a well-formed book every level on
/// either side holds unfilled quantity — emptied levels never rest in a book.
pub proof fn lemma_levels_never_empty(b: &Orderbook)
    requires
        b.wf(),
    ensures
        forall|i: int| 0 <= i < b@.asks.len() ==> volume(#[trigger] b@.asks[i].1) > 0,
        forall|i: int| 0 <= i < b@.bids.len() ==> volume(#[trigger] b@.bids[i].1) > 0,
{
}

/// The second book invariant as a law: in a well-formed book every resting
/// order is indexed under its level's price and side, identities are unique,
/// and every index entry resolves to a level at the recorded price on the
/// recorded side that holds the order.
pub proof fn lemma_index_correspondence(b: &Orderbook)
    requires
        b.wf(),
    ensures
        side_indexed(b@.asks, b@.index, BidOrAsk::Ask),
        side_indexed(b@.bids, b@.index, BidOrAsk::Bid),
        index_covers_side(b@.index, b@.asks, BidOrAsk::Ask),
        index_covers_side(b@.index, b@.bids, BidOrAsk::Bid),
        distinct_each_level(b@.asks),
        distinct_each_level(b@.bids),
{
}

} // verus!
