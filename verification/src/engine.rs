use vstd::prelude::*;
use vstd::string::StringExecFns;

use crate::orderbook::BidOrAsk;
use crate::orderbook::BookView;
use crate::orderbook::Order;
use crate::orderbook::Orderbook;
use crate::orderbook::add_to_side;
use crate::orderbook::book_fill;
use crate::orderbook::book_remaining;
use crate::orderbook::cancel_in_side;
use crate::orderbook::cancelled_ids;
use crate::orderbook::drained_ids;
use crate::orderbook::wf_views;
use crate::orderbook::Limit;
use crate::orderbook::side_view;

verus! {

/// One tradable instrument: a base/quote symbol pair.  Pure value identity;
/// its canonical rendering is `"BASE-QUOTE"`.
#[derive(Debug)]
pub struct TradingPair {
    base: String,
    quote: String,
}

impl View for TradingPair {
    type V = (Seq<char>, Seq<char>);

    closed spec fn view(&self) -> (Seq<char>, Seq<char>) {
        (self.base@, self.quote@)
    }
}

/// The canonical rendering of a pair: the base symbol, a dash, the quote
/// symbol.
pub open spec fn pair_label(p: (Seq<char>, Seq<char>)) -> Seq<char> {
    p.0 + "-"@ + p.1
}

/// The message a routing failure carries: it names the pair that has no
/// market.
pub open spec fn not_found_msg(p: (Seq<char>, Seq<char>)) -> Seq<char> {
    "The orderbook for the given trading pair ("@ + pair_label(p)
        + ") doesn't exist!"@
}

impl PartialEq for TradingPair {
    fn eq(&self, other: &TradingPair) -> (r: bool) {
        self.base == other.base && self.quote == other.quote
    }
}

impl vstd::std_specs::cmp::PartialEqSpecImpl for TradingPair {
    open spec fn obeys_eq_spec() -> bool {
        true
    }

    open spec fn eq_spec(&self, other: &TradingPair) -> bool {
        self@ == other@
    }
}

impl Clone for TradingPair {
    fn clone(&self) -> (r: Self)
        ensures
            r@ == self@,
    {
        TradingPair { base: self.base.clone(), quote: self.quote.clone() }
    }
}

impl TradingPair {
    pub fn new(base: String, quote: String) -> (r: TradingPair)
        ensures
            r@ == (base@, quote@),
    {
        TradingPair { base, quote }
    }

    /// The canonical string form `"BASE-QUOTE"`, used for error messages and
    /// display only, never for lookup.
    pub fn to_string(&self) -> (r: String)
        ensures
            r@ == pair_label(self@),
    {
        self.base.clone().concat("-").concat(self.quote.as_str())
    }
}

/// The engine: one order book per registered instrument.  Commands are routed
/// by trading pair; a command for an unregistered pair fails with an error
/// naming the pair and changes nothing.
pub struct MatchingEngine {
    orderbooks: Vec<(TradingPair, Orderbook)>,
}

impl MatchingEngine {
    /// The registered markets, in registration order: each pair with the
    /// ghost image of its book.
    pub closed spec fn books(self) -> Seq<((Seq<char>, Seq<char>), BookView)> {
        Seq::new(
            self.orderbooks@.len(),
            |i: int| (self.orderbooks@[i].0@, self.orderbooks@[i].1@),
        )
    }

    /// Every registered book is well-formed and no pair is registered twice.
    pub closed spec fn wf(self) -> bool {
        &&& (forall|i: int|
            0 <= i < self.orderbooks@.len() ==> (#[trigger] self.orderbooks@[i].1).wf())
        &&& (forall|i: int, j: int|
            0 <= i < j < self.orderbooks@.len() ==> (#[trigger] self.orderbooks@[i].0)@ != (
            #[trigger] self.orderbooks@[j].0)@)
    }

    /// A market exists for the pair.
    pub open spec fn has_market(self, p: (Seq<char>, Seq<char>)) -> bool {
        exists|i: int| 0 <= i < self.books().len() && (#[trigger] self.books()[i]).0 == p
    }

    pub open spec fn idx_of(self, p: (Seq<char>, Seq<char>)) -> int {
        choose|i: int| 0 <= i < self.books().len() && (#[trigger] self.books()[i]).0 == p
    }

    /// The ghost image of the pair's book (meaningful when a market exists).
    pub open spec fn book_of(self, p: (Seq<char>, Seq<char>)) -> BookView {
        self.books()[self.idx_of(p)].1
    }

    /// A fresh engine with no market registered.
    pub fn new() -> (r: MatchingEngine)
        ensures
            r.wf(),
            forall|p: (Seq<char>, Seq<char>)| !r.has_market(p),
    {
        MatchingEngine { orderbooks: Vec::new() }
    }

    /// The position of the pair's book, or the length if none is registered.
    fn lookup(&self, pair: &TradingPair) -> (i: usize)
        requires
            self.wf(),
        ensures
            i <= self.books().len(),
            i < self.books().len() ==> self.books()[i as int].0 == pair@ && self.has_market(pair@)
                && self.idx_of(pair@) == i as int,
            i == self.books().len() ==> !self.has_market(pair@),
    {
        let mut i: usize = 0;
        while i < self.orderbooks.len()
            invariant
                self.wf(),
                i <= self.orderbooks@.len(),
                forall|l: int| 0 <= l < i ==> (#[trigger] self.books()[l]).0 != pair@,
            decreases self.orderbooks@.len() - i,
        {
            if self.orderbooks[i].0 == *pair {
                proof {
                    assert(self.books()[i as int].0 == pair@);
                    let i2 = self.idx_of(pair@);
                    assert(0 <= i2 < self.books().len() && self.books()[i2].0 == pair@);
                    if i2 != i as int {
                        assert(self.orderbooks@[i2].0@ != self.orderbooks@[i as int].0@);
                    }
                }
                return i;
            }
            i = i + 1;
        }
        proof {
            if self.has_market(pair@) {
                let i2 = choose|i2: int|
                    0 <= i2 < self.books().len() && (#[trigger] self.books()[i2]).0 == pair@;
            }
        }
        i
    }

    /// Registers a fresh, empty market for the pair.  Re-registering an
    /// existing pair resets its book to empty and discards its state.
    pub fn add_new_market(&mut self, pair: &TradingPair)
        requires
            old(self).wf(),
        ensures
            final(self).wf(),
            final(self).has_market(pair@),
            final(self).book_of(pair@).asks.len() == 0,
            final(self).book_of(pair@).bids.len() == 0,
            final(self).book_of(pair@).index == Map::<u128, (u64, BidOrAsk)>::empty(),
            forall|q: (Seq<char>, Seq<char>)|
                q != pair@ ==> final(self).has_market(q) == old(self).has_market(q),
            forall|q: (Seq<char>, Seq<char>)|
                q != pair@ && old(self).has_market(q) ==> final(self).book_of(q) == old(
                    self,
                ).book_of(q),
    {
        let ghost e0 = *self;
        let i = self.lookup(pair);
        let fresh = Orderbook::new();
        if i < self.orderbooks.len() {
            let entry = &mut self.orderbooks[i];
            entry.1 = fresh;
            proof {
                assert(self.books() =~~= e0.books().update(
                    i as int,
                    (pair@, fresh@),
                ));
            }
        } else {
            self.orderbooks.push((pair.clone(), fresh));
            proof {
                assert(self.books() =~~= e0.books().push((pair@, fresh@)));
            }
        }
        proof {
            self.lemma_lookup_stable(e0, pair@, i as int, fresh@);
        }
    }

    /// After replacing or appending the pair's book at position `i`, every
    /// pair resolves as before, and the pair resolves to the new book.
    proof fn lemma_lookup_stable(
        self,
        e0: MatchingEngine,
        p: (Seq<char>, Seq<char>),
        i: int,
        nb: BookView,
    )
        requires
            e0.wf(),
            wf_views(nb.asks, nb.bids, nb.index),
            0 <= i <= e0.books().len(),
            i < e0.books().len() ==> e0.books()[i].0 == p && self.books() == e0.books().update(
                i,
                (p, nb),
            ),
            i == e0.books().len() ==> (!e0.has_market(p) && self.books() == e0.books().push(
                (p, nb),
            )),
            forall|l: int| 0 <= l < i ==> (#[trigger] e0.books()[l]).0 != p,
        ensures
            self.wf(),
            self.has_market(p),
            self.book_of(p) == nb,
            forall|q: (Seq<char>, Seq<char>)|
                q != p ==> self.has_market(q) == e0.has_market(q),
            forall|q: (Seq<char>, Seq<char>)|
                q != p && e0.has_market(q) ==> self.book_of(q) == e0.book_of(q),
    {
        assert(self.books().len() == if i < e0.books().len() {
            e0.books().len()
        } else {
            e0.books().len() + 1
        });
        assert forall|l: int| 0 <= l < self.books().len() && l != i implies self.books()[l]
            == e0.books()[l] by {}
        assert(self.books()[i] == (p, nb));
        // the engine stays well-formed
        assert forall|a: int, b: int|
            0 <= a < b < self.orderbooks@.len() implies (#[trigger] self.orderbooks@[a].0)@ != (
        #[trigger] self.orderbooks@[b].0)@ by {
            assert(self.books()[a].0 == self.orderbooks@[a].0@);
            assert(self.books()[b].0 == self.orderbooks@[b].0@);
            if a != i && b != i {
                assert(e0.books()[a].0 == e0.orderbooks@[a].0@);
                assert(e0.books()[b].0 == e0.orderbooks@[b].0@);
                assert(e0.orderbooks@[a].0@ != e0.orderbooks@[b].0@);
            } else if a == i {
                if b < e0.books().len() {
                    assert(e0.books()[b].0 != p) by {
                        if e0.books()[b].0 == p {
                            if i < e0.books().len() {
                                assert(e0.orderbooks@[i].0@ != e0.orderbooks@[b].0@);
                                assert(e0.books()[i].0 == e0.orderbooks@[i].0@);
                            } else {
                                assert(e0.has_market(p));
                            }
                        }
                    }
                }
            } else {
                assert(e0.books()[a].0 != p);
            }
        }
        assert forall|l: int|
            0 <= l < self.orderbooks@.len() implies (#[trigger] self.orderbooks@[l].1).wf() by {
            assert(self.books()[l].1 == self.orderbooks@[l].1@);
            if l != i {
                assert(e0.books()[l].1 == e0.orderbooks@[l].1@);
                assert(e0.orderbooks@[l].1.wf());
                assert(self.orderbooks@[l].1@ == e0.orderbooks@[l].1@);
            } else {
                assert(self.orderbooks@[l].1@ == nb);
            }
        }
        // the pair resolves to the new book
        assert(self.has_market(p));
        let i2 = self.idx_of(p);
        assert(0 <= i2 < self.books().len() && self.books()[i2].0 == p);
        assert(i2 == i) by {
            if i2 != i {
                assert(self.orderbooks@[i2].0@ == p && self.orderbooks@[i].0@ == p);
                if i2 < i {
                    assert(self.orderbooks@[i2].0@ != self.orderbooks@[i].0@);
                } else {
                    assert(self.orderbooks@[i].0@ != self.orderbooks@[i2].0@);
                }
            }
        }
        // other pairs resolve as before
        assert forall|q: (Seq<char>, Seq<char>)| q != p implies self.has_market(q)
            == e0.has_market(q) by {
            if e0.has_market(q) {
                let l = choose|l: int|
                    0 <= l < e0.books().len() && (#[trigger] e0.books()[l]).0 == q;
                assert(l != i);
                assert(self.books()[l].0 == q);
            }
            if self.has_market(q) {
                let l = choose|l: int|
                    0 <= l < self.books().len() && (#[trigger] self.books()[l]).0 == q;
                assert(l != i);
                assert(l < e0.books().len());
                assert(e0.books()[l].0 == q);
            }
        }
        assert forall|q: (Seq<char>, Seq<char>)|
            q != p && e0.has_market(q) implies self.book_of(q) == e0.book_of(q) by {
            let l0 = e0.idx_of(q);
            let l1 = self.idx_of(q);
            assert(0 <= l0 < e0.books().len() && e0.books()[l0].0 == q);
            assert(self.has_market(q));
            assert(0 <= l1 < self.books().len() && self.books()[l1].0 == q);
            assert(l1 != i);
            assert(self.books()[l1] == e0.books()[l1]);
            assert(l0 == l1) by {
                if l0 != l1 {
                    if l0 < l1 {
                        assert(e0.orderbooks@[l0].0@ != e0.orderbooks@[l1].0@);
                        assert(e0.books()[l0].0 == e0.orderbooks@[l0].0@);
                        assert(e0.books()[l1].0 == e0.orderbooks@[l1].0@);
                    } else {
                        assert(e0.orderbooks@[l1].0@ != e0.orderbooks@[l0].0@);
                        assert(e0.books()[l0].0 == e0.orderbooks@[l0].0@);
                        assert(e0.books()[l1].0 == e0.orderbooks@[l1].0@);
                    }
                }
            }
        }
    }

    /// Establishes that positions before the found one carry other pairs,
    /// then the stability of every resolution across a one-book update.
    proof fn lemma_prefix_differs(self, p: (Seq<char>, Seq<char>), i: int)
        requires
            self.wf(),
            0 <= i < self.books().len(),
            self.books()[i].0 == p,
        ensures
            forall|l: int| 0 <= l < i ==> (#[trigger] self.books()[l]).0 != p,
    {
        assert forall|l: int| 0 <= l < i implies (#[trigger] self.books()[l]).0 != p by {
            assert(self.orderbooks@[l].0@ != self.orderbooks@[i].0@);
            assert(self.books()[l].0 == self.orderbooks@[l].0@);
            assert(self.books()[i].0 == self.orderbooks@[i].0@);
        }
    }

    /// Routes a limit order to the pair's book, which rests it passively at
    /// `price`; fails with an error naming the pair when no market exists,
    /// changing nothing.
    pub fn place_limit_order(&mut self, pair: &TradingPair, price: u64, order: Order) -> (r:
        Result<(), String>)
        requires
            old(self).wf(),
            order.size > 0,
            old(self).has_market(pair@) ==> !old(self).book_of(pair@).index.contains_key(order.id),
        ensures
            final(self).wf(),
            r is Ok <==> old(self).has_market(pair@),
            forall|q: (Seq<char>, Seq<char>)|
                final(self).has_market(q) == old(self).has_market(q),
            old(self).has_market(pair@) ==> {
                let b0 = old(self).book_of(pair@);
                let b1 = final(self).book_of(pair@);
                &&& b1.index == b0.index.insert(order.id, (price, order.bid_or_ask))
                &&& (order.bid_or_ask == BidOrAsk::Bid ==> b1.bids == add_to_side(
                    b0.bids,
                    price,
                    order,
                    false,
                ) && b1.asks == b0.asks)
                &&& (order.bid_or_ask == BidOrAsk::Ask ==> b1.asks == add_to_side(
                    b0.asks,
                    price,
                    order,
                    true,
                ) && b1.bids == b0.bids)
                &&& (forall|q: (Seq<char>, Seq<char>)|
                    q != pair@ && old(self).has_market(q) ==> final(self).book_of(q) == old(
                        self,
                    ).book_of(q))
            },
            !old(self).has_market(pair@) ==> {
                &&& r matches Err(m) && m@ == not_found_msg(pair@)
                &&& (forall|q: (Seq<char>, Seq<char>)|
                    old(self).has_market(q) ==> final(self).book_of(q) == old(self).book_of(q))
            },
    {
        let ghost e0 = *self;
        let i = self.lookup(pair);
        if i < self.orderbooks.len() {
            let entry = &mut self.orderbooks[i];
            proof {
                assert(entry.1.wf());
            }
            entry.1.add_limit_order(price, order);
            proof {
                assert(self.books() =~~= e0.books().update(
                    i as int,
                    (pair@, self.orderbooks@[i as int].1@),
                ));
                e0.lemma_prefix_differs(pair@, i as int);
                self.lemma_lookup_stable(e0, pair@, i as int, self.orderbooks@[i as int].1@);
            }
            Ok(())
        } else {
            Err(Self::market_not_found(pair))
        }
    }

    /// Routes a market order to the pair's book and executes it against the
    /// opposite side in price-time priority, mutating the order in place to
    /// reflect fill progress; fails with an error naming the pair when no
    /// market exists, changing nothing.
    pub fn place_market_order(&mut self, pair: &TradingPair, order: &mut Order) -> (r: Result<
        (),
        String,
    >)
        requires
            old(self).wf(),
        ensures
            final(self).wf(),
            r is Ok <==> old(self).has_market(pair@),
            forall|q: (Seq<char>, Seq<char>)|
                final(self).has_market(q) == old(self).has_market(q),
            final(order).id == old(order).id,
            final(order).bid_or_ask == old(order).bid_or_ask,
            old(self).has_market(pair@) ==> {
                let b0 = old(self).book_of(pair@);
                let b1 = final(self).book_of(pair@);
                &&& (old(order).bid_or_ask == BidOrAsk::Bid ==> b1.asks == book_fill(
                    b0.asks,
                    old(order).size as int,
                ) && b1.bids == b0.bids && final(order).size as int == book_remaining(
                    b0.asks,
                    old(order).size as int,
                ) && b1.index == b0.index.remove_keys(
                    drained_ids(b0.asks, old(order).size as int),
                ))
                &&& (old(order).bid_or_ask == BidOrAsk::Ask ==> b1.bids == book_fill(
                    b0.bids,
                    old(order).size as int,
                ) && b1.asks == b0.asks && final(order).size as int == book_remaining(
                    b0.bids,
                    old(order).size as int,
                ) && b1.index == b0.index.remove_keys(
                    drained_ids(b0.bids, old(order).size as int),
                ))
                &&& (forall|q: (Seq<char>, Seq<char>)|
                    q != pair@ && old(self).has_market(q) ==> final(self).book_of(q) == old(
                        self,
                    ).book_of(q))
            },
            !old(self).has_market(pair@) ==> {
                &&& r matches Err(m) && m@ == not_found_msg(pair@)
                &&& *final(order) == *old(order)
                &&& (forall|q: (Seq<char>, Seq<char>)|
                    old(self).has_market(q) ==> final(self).book_of(q) == old(self).book_of(q))
            },
    {
        let ghost e0 = *self;
        let i = self.lookup(pair);
        if i < self.orderbooks.len() {
            let entry = &mut self.orderbooks[i];
            proof {
                assert(entry.1.wf());
            }
            entry.1.fill_market_order(order);
            proof {
                assert(self.books() =~~= e0.books().update(
                    i as int,
                    (pair@, self.orderbooks@[i as int].1@),
                ));
                e0.lemma_prefix_differs(pair@, i as int);
                self.lemma_lookup_stable(e0, pair@, i as int, self.orderbooks@[i as int].1@);
            }
            Ok(())
        } else {
            Err(Self::market_not_found(pair))
        }
    }

    /// Routes a cancellation to the pair's book; reports through `Ok` whether
    /// the identity was known there (an unknown identity is non-fatal and
    /// changes nothing).  Fails with an error naming the pair when no market
    /// exists, changing nothing.
    pub fn cancel_limited_order(&mut self, pair: &TradingPair, id: u128) -> (r: Result<
        bool,
        String,
    >)
        requires
            old(self).wf(),
        ensures
            final(self).wf(),
            r is Ok <==> old(self).has_market(pair@),
            forall|q: (Seq<char>, Seq<char>)|
                final(self).has_market(q) == old(self).has_market(q),
            old(self).has_market(pair@) ==> {
                let b0 = old(self).book_of(pair@);
                let b1 = final(self).book_of(pair@);
                &&& (r matches Ok(found) ==> found == b0.index.contains_key(id))
                &&& (!b0.index.contains_key(id) ==> b1 == b0)
                &&& (b0.index.contains_key(id) ==> {
                    let price = b0.index[id].0;
                    let side = b0.index[id].1;
                    &&& (side == BidOrAsk::Bid ==> b1.bids == cancel_in_side(b0.bids, price, id)
                        && b1.asks == b0.asks && b1.index == b0.index.remove_keys(
                        cancelled_ids(b0.bids, price, id),
                    ))
                    &&& (side == BidOrAsk::Ask ==> b1.asks == cancel_in_side(b0.asks, price, id)
                        && b1.bids == b0.bids && b1.index == b0.index.remove_keys(
                        cancelled_ids(b0.asks, price, id),
                    ))
                })
                &&& (forall|q: (Seq<char>, Seq<char>)|
                    q != pair@ && old(self).has_market(q) ==> final(self).book_of(q) == old(
                        self,
                    ).book_of(q))
            },
            !old(self).has_market(pair@) ==> {
                &&& r matches Err(m) && m@ == not_found_msg(pair@)
                &&& (forall|q: (Seq<char>, Seq<char>)|
                    old(self).has_market(q) ==> final(self).book_of(q) == old(self).book_of(q))
            },
    {
        let ghost e0 = *self;
        let i = self.lookup(pair);
        if i < self.orderbooks.len() {
            let entry = &mut self.orderbooks[i];
            proof {
                assert(entry.1.wf());
            }
            let found = entry.1.cancel_limited_order(id);
            proof {
                assert(self.books() =~~= e0.books().update(
                    i as int,
                    (pair@, self.orderbooks@[i as int].1@),
                ));
                e0.lemma_prefix_differs(pair@, i as int);
                self.lemma_lookup_stable(e0, pair@, i as int, self.orderbooks@[i as int].1@);
                if !e0.book_of(pair@).index.contains_key(id) {
                    assert(final(self).book_of(pair@) =~~= e0.book_of(pair@));
                }
            }
            Ok(found)
        } else {
            Err(Self::market_not_found(pair))
        }
    }

    /// Routes a read-only snapshot request: both sides of the pair's book in
    /// matching priority order (asks cheapest first, bids highest first), for
    /// the caller to render.  Fails with an error naming the pair when no
    /// market exists.
    pub fn display_orderbook(&self, pair: &TradingPair) -> (r: Result<
        (Vec<Limit>, Vec<Limit>),
        String,
    >)
        requires
            self.wf(),
        ensures
            r is Ok <==> self.has_market(pair@),
            self.has_market(pair@) ==> (r matches Ok(snap) && side_view(snap.0@) == self.book_of(
                pair@,
            ).asks && side_view(snap.1@) == self.book_of(pair@).bids),
            !self.has_market(pair@) ==> (r matches Err(m) && m@ == not_found_msg(pair@)),
    {
        let i = self.lookup(pair);
        if i < self.orderbooks.len() {
            let book = &self.orderbooks[i].1;
            Ok((book.ask_limits(), book.bid_limits()))
        } else {
            Err(Self::market_not_found(pair))
        }
    }

    /// The routing failure for a pair with no market.
    fn market_not_found(pair: &TradingPair) -> (r: String)
        ensures
            r@ == not_found_msg(pair@),
    {
        String::from_str("The orderbook for the given trading pair (").concat(
            pair.to_string().as_str(),
        ).concat(") doesn't exist!")
    }
}

} // verus!
