//! The mathematical model of the limit order book.
//!
//! A book is seen as, for each side and each price level, the FIFO queue
//! of arena slots resting there (oldest first), the order held in each
//! resting slot, the list of free slots in the order they will be reused,
//! and the id index.  Matching, resting and cancelling are stated as
//! functions on this model.
use vstd::prelude::*;
use vstd::set_lib::*;

verus! {

pub type OrderId = u64;

pub type Qty = u32;

pub type TickIdx = u32;

/// The empty-link sentinel of the intrusive lists.
pub const NIL: u32 = 0xFFFF_FFFF;

#[derive(Clone, Copy, PartialEq, Eq, Debug, Structural)]
pub enum Side {
    Buy,
    Sell,
}

#[derive(Clone, Copy, PartialEq, Eq, Debug, Structural)]
pub struct Trade {
    pub maker_id: OrderId,
    pub taker_id: OrderId,
    pub price_idx: TickIdx,
    pub qty: Qty,
}

/// An order resting in the book: its id, remaining quantity, side and level.
pub struct RestingOrder {
    pub id: OrderId,
    pub qty: Qty,
    pub side: Side,
    pub price_idx: TickIdx,
}

/// The abstract state of an order book.
///
/// `queues[s][l]` holds the slots resting on side `s` (0 = bids, 1 = asks)
/// at level `l`, oldest first; `orders` gives the order in each resting
/// slot; `free` lists the unused slots, the next one to be used first;
/// `index` maps an order id to the slot that `cancel` will remove.
#[verifier::ext_equal]
pub struct BookView {
    pub n_levels: nat,
    pub capacity: nat,
    pub queues: Seq<Seq<Seq<u32>>>,
    pub free: Seq<u32>,
    pub orders: Map<u32, RestingOrder>,
    pub index: Map<OrderId, u32>,
}

pub open spec fn side_ix(s: Side) -> int {
    match s {
        Side::Buy => 0,
        Side::Sell => 1,
    }
}

/// The side a taker on `s` trades against.
pub open spec fn opposite_ix(s: Side) -> int {
    match s {
        Side::Buy => 1,
        Side::Sell => 0,
    }
}

/// Total quantity of the orders in a queue.
pub open spec fn queue_qty(orders: Map<u32, RestingOrder>, q: Seq<u32>) -> int
    decreases q.len(),
{
    if q.len() == 0 {
        0
    } else {
        queue_qty(orders, q.drop_last()) + orders[q.last()].qty
    }
}

/// The lowest level at or above `i` whose queue is not empty, or the number
/// of levels when there is none.
pub open spec fn first_nonempty_up(q: Seq<Seq<u32>>, i: int) -> int
    decreases q.len() - i,
{
    if i >= q.len() {
        q.len() as int
    } else if q[i].len() > 0 {
        i
    } else {
        first_nonempty_up(q, i + 1)
    }
}

/// The highest level at or below `i` whose queue is not empty, or -1 when
/// there is none.
pub open spec fn last_nonempty_down(q: Seq<Seq<u32>>, i: int) -> int
    decreases i + 1,
{
    if i < 0 {
        -1
    } else if q[i].len() > 0 {
        i
    } else {
        last_nonempty_down(q, i - 1)
    }
}

impl BookView {
    pub open spec fn queue(self, s: int, l: int) -> Seq<u32> {
        self.queues[s][l]
    }

    /// Total resting quantity of a level.
    pub open spec fn level_total(self, s: int, l: int) -> int {
        queue_qty(self.orders, self.queues[s][l])
    }

    /// Lowest ask level holding an order, or `n_levels` when asks are empty.
    pub open spec fn best_ask(self) -> int {
        first_nonempty_up(self.queues[1], 0)
    }

    /// Highest bid level holding an order, or -1 when bids are empty.
    pub open spec fn best_bid(self) -> int {
        last_nonempty_down(self.queues[0], self.n_levels - 1)
    }

    /// The book never crosses: every bid level is below every ask level.
    pub open spec fn uncrossed(self) -> bool {
        self.best_bid() < self.best_ask()
    }
}

/// The book with the order in `slot` taken out: its queue loses it, the
/// slot goes to the front of the free list, and the index forgets its id.
pub open spec fn remove_slot(v: BookView, slot: u32) -> BookView {
    let o = v.orders[slot];
    let s = side_ix(o.side);
    let l = o.price_idx as int;
    BookView {
        n_levels: v.n_levels,
        capacity: v.capacity,
        queues: v.queues.update(s, v.queues[s].update(l, v.queues[s][l].remove_value(slot))),
        free: seq![slot] + v.free,
        orders: v.orders.remove(slot),
        index: v.index.remove(o.id),
    }
}

/// The book with `by` taken off the order in `slot`.
pub open spec fn reduce_slot(v: BookView, slot: u32, by: Qty) -> BookView {
    let o = v.orders[slot];
    BookView {
        orders: v.orders.insert(
            slot,
            RestingOrder { id: o.id, qty: (o.qty - by) as u32, side: o.side, price_idx: o.price_idx },
        ),
        ..v
    }
}

/// The book with a new order resting in the first free slot, at the back of
/// its level's queue.
pub open spec fn rest_slot(v: BookView, id: OrderId, side: Side, price_idx: TickIdx, qty: Qty) -> BookView {
    let slot = v.free[0];
    let s = side_ix(side);
    let l = price_idx as int;
    BookView {
        n_levels: v.n_levels,
        capacity: v.capacity,
        queues: v.queues.update(s, v.queues[s].update(l, v.queues[s][l].push(slot))),
        free: v.free.drop_first(),
        orders: v.orders.insert(slot, RestingOrder { id, qty, side, price_idx }),
        index: v.index.insert(id, slot),
    }
}

/// Whether a taker on `side` with an optional limit can trade against the
/// best opposite level: there is one, and it is not worse than the limit.
pub open spec fn can_match(v: BookView, side: Side, limit: Option<TickIdx>) -> bool {
    match side {
        Side::Buy => v.best_ask() < v.n_levels && (limit matches Some(p) ==> v.best_ask() <= p),
        Side::Sell => v.best_bid() >= 0 && (limit matches Some(p) ==> p <= v.best_bid()),
    }
}

/// The best opposite level for a taker on `side`.
pub open spec fn best_opposite(v: BookView, side: Side) -> int {
    match side {
        Side::Buy => v.best_ask(),
        Side::Sell => v.best_bid(),
    }
}

/// The oldest order at the best opposite level.
pub open spec fn best_maker(v: BookView, side: Side) -> u32 {
    v.queues[opposite_ix(side)][best_opposite(v, side)][0]
}

/// Price-time priority matching.  While quantity remains and the best
/// opposite level is within the limit, the oldest order there trades
/// `min(remaining, its quantity)` at its own level; a filled maker leaves
/// the book.  Gives the book after matching, the trades in the order they
/// happened, and the quantity left over.  (A resting order never holds zero;
/// stopping on one keeps the definition total.)
pub open spec fn match_orders(
    v: BookView,
    taker: OrderId,
    side: Side,
    limit: Option<TickIdx>,
    remaining: Qty,
) -> (BookView, Seq<Trade>, Qty)
    decreases remaining,
{
    let slot = best_maker(v, side);
    let maker = v.orders[slot];
    if remaining == 0 || !can_match(v, side, limit) || maker.qty == 0 {
        (v, seq![], remaining)
    } else {
        let traded: u32 = if remaining < maker.qty { remaining } else { maker.qty };
        let t = Trade {
            maker_id: maker.id,
            taker_id: taker,
            price_idx: best_opposite(v, side) as u32,
            qty: traded,
        };
        let next = if traded == maker.qty { remove_slot(v, slot) } else { reduce_slot(v, slot, traded) };
        let r = match_orders(next, taker, side, limit, (remaining - traded) as u32);
        (r.0, seq![t] + r.1, r.2)
    }
}

/// A limit order: match up to `price_idx`, then rest what is left.
pub open spec fn limit_order_spec(
    v: BookView,
    id: OrderId,
    side: Side,
    price_idx: TickIdx,
    qty: Qty,
) -> (BookView, Seq<Trade>, Qty) {
    let m = match_orders(v, id, side, Some(price_idx), qty);
    if m.2 > 0 {
        (rest_slot(m.0, id, side, price_idx, m.2), m.1, m.2)
    } else {
        m
    }
}

/// Cancelling: an id the index knows has its order removed; any other id
/// leaves the book as it was.
pub open spec fn cancel_spec(v: BookView, id: OrderId) -> (BookView, bool) {
    if v.index.contains_key(id) {
        (remove_slot(v, v.index[id]), true)
    } else {
        (v, false)
    }
}

/// The non-empty levels of side `s` from level `i` upwards, at most `depth`
/// of them, each with its total quantity.
pub open spec fn levels_up(v: BookView, s: int, i: int, depth: nat) -> Seq<(TickIdx, u64)>
    decreases v.n_levels - i,
{
    if i >= v.n_levels || depth == 0 {
        seq![]
    } else if v.queues[s][i].len() > 0 {
        seq![(i as u32, v.level_total(s, i) as u64)] + levels_up(v, s, i + 1, (depth - 1) as nat)
    } else {
        levels_up(v, s, i + 1, depth)
    }
}

/// The non-empty levels of side `s` from level `i` downwards, at most
/// `depth` of them, each with its total quantity.
pub open spec fn levels_down(v: BookView, s: int, i: int, depth: nat) -> Seq<(TickIdx, u64)>
    decreases i + 1,
{
    if i < 0 || depth == 0 {
        seq![]
    } else if v.queues[s][i].len() > 0 {
        seq![(i as u32, v.level_total(s, i) as u64)] + levels_down(v, s, i - 1, (depth - 1) as nat)
    } else {
        levels_down(v, s, i - 1, depth)
    }
}

/// A depth snapshot: best level first (bids falling, asks rising).
pub open spec fn top_levels_spec(v: BookView, side: Side, depth: nat) -> Seq<(TickIdx, u64)> {
    match side {
        Side::Buy => levels_down(v, 0, v.n_levels - 1, depth),
        Side::Sell => levels_up(v, 1, 0, depth),
    }
}

/// The book `new` builds: every queue empty and every slot free, in order.
pub open spec fn empty_book(n_levels: nat, capacity: nat) -> BookView {
    BookView {
        n_levels,
        capacity,
        queues: Seq::new(2, |s: int| Seq::new(n_levels, |l: int| Seq::<u32>::empty())),
        free: Seq::new(capacity, |i: int| i as u32),
        orders: Map::empty(),
        index: Map::empty(),
    }
}

// ---------------------------------------------------------------------
//  Lemmas on the model
// ---------------------------------------------------------------------

/// `first_nonempty_up` is characterised by: everything below it (from `i`)
/// is empty and it is either past the end or non-empty.
pub proof fn lemma_up_char(q: Seq<Seq<u32>>, i: int, r: int)
    requires
        0 <= i <= r <= q.len(),
        forall|j: int| i <= j < r ==> #[trigger] q[j].len() == 0,
        r < q.len() ==> q[r].len() > 0,
    ensures
        first_nonempty_up(q, i) == r,
    decreases r - i,
{
    if i < r {
        lemma_up_char(q, i + 1, r);
    }
}

pub proof fn lemma_up_props(q: Seq<Seq<u32>>, i: int)
    requires
        0 <= i <= q.len(),
    ensures
        i <= first_nonempty_up(q, i) <= q.len(),
        forall|j: int| i <= j < first_nonempty_up(q, i) ==> #[trigger] q[j].len() == 0,
        first_nonempty_up(q, i) < q.len() ==> q[first_nonempty_up(q, i)].len() > 0,
    decreases q.len() - i,
{
    if i < q.len() && q[i].len() == 0 {
        lemma_up_props(q, i + 1);
    }
}

pub proof fn lemma_down_char(q: Seq<Seq<u32>>, i: int, r: int)
    requires
        -1 <= r <= i < q.len(),
        forall|j: int| r < j <= i ==> #[trigger] q[j].len() == 0,
        r >= 0 ==> q[r].len() > 0,
    ensures
        last_nonempty_down(q, i) == r,
    decreases i - r,
{
    if r < i {
        lemma_down_char(q, i - 1, r);
    }
}

pub proof fn lemma_down_props(q: Seq<Seq<u32>>, i: int)
    requires
        -1 <= i < q.len(),
    ensures
        -1 <= last_nonempty_down(q, i) <= i,
        forall|j: int| last_nonempty_down(q, i) < j <= i ==> #[trigger] q[j].len() == 0,
        last_nonempty_down(q, i) >= 0 ==> q[last_nonempty_down(q, i)].len() > 0,
    decreases i + 1,
{
    if i >= 0 && q[i].len() == 0 {
        lemma_down_props(q, i - 1);
    }
}

pub proof fn lemma_queue_qty_frame(o1: Map<u32, RestingOrder>, o2: Map<u32, RestingOrder>, q: Seq<u32>)
    requires
        forall|k: int| 0 <= k < q.len() ==> #[trigger] o1[q[k]].qty == o2[q[k]].qty,
    ensures
        queue_qty(o1, q) == queue_qty(o2, q),
    decreases q.len(),
{
    if q.len() > 0 {
        assert forall|k: int| 0 <= k < q.drop_last().len() implies #[trigger] o1[q.drop_last()[k]].qty
            == o2[q.drop_last()[k]].qty by {
            assert(q.drop_last()[k] == q[k]);
        }
        lemma_queue_qty_frame(o1, o2, q.drop_last());
        assert(o1[q[q.len() - 1]].qty == o2[q[q.len() - 1]].qty);
    }
}

pub proof fn lemma_queue_qty_push(o: Map<u32, RestingOrder>, q: Seq<u32>, x: u32)
    ensures
        queue_qty(o, q.push(x)) == queue_qty(o, q) + o[x].qty,
{
    assert(q.push(x).drop_last() =~= q);
}

pub proof fn lemma_queue_qty_remove(o: Map<u32, RestingOrder>, q: Seq<u32>, k: int)
    requires
        0 <= k < q.len(),
    ensures
        queue_qty(o, q) == queue_qty(o, q.remove(k)) + o[q[k]].qty,
    decreases q.len(),
{
    if k == q.len() - 1 {
        assert(q.remove(k) =~= q.drop_last());
    } else {
        lemma_queue_qty_remove(o, q.drop_last(), k);
        assert(q.remove(k).drop_last() =~= q.drop_last().remove(k));
        assert(q.remove(k).last() == q.last());
    }
}

pub proof fn lemma_queue_qty_bounds(o: Map<u32, RestingOrder>, q: Seq<u32>)
    ensures
        0 <= queue_qty(o, q) <= q.len() * 0xFFFF_FFFF,
    decreases q.len(),
{
    if q.len() > 0 {
        lemma_queue_qty_bounds(o, q.drop_last());
    }
}

/// `q` without position `k`, written position by position.
pub open spec fn seq_without(q: Seq<u32>, k: int) -> Seq<u32> {
    Seq::new((q.len() - 1) as nat, |j: int| if j < k { q[j] } else { q[j + 1] })
}

pub proof fn lemma_seq_without(q: Seq<u32>, k: int)
    requires
        0 <= k < q.len(),
    ensures
        seq_without(q, k) == q.remove(k),
{
    q.remove_ensures(k);
    assert(seq_without(q, k) =~= q.remove(k));
}

/// In a sequence without duplicates, removing the value at `k` removes
/// position `k`.
pub proof fn lemma_remove_value_at(q: Seq<u32>, k: int)
    requires
        q.no_duplicates(),
        0 <= k < q.len(),
    ensures
        q.remove_value(q[k]) == q.remove(k),
{
    q.index_of_first_ensures(q[k]);
}

/// A sequence of distinct slots below `cap` has at most `cap` elements.
pub proof fn lemma_distinct_below(q: Seq<u32>, cap: u32)
    requires
        q.no_duplicates(),
        forall|k: int| 0 <= k < q.len() ==> #[trigger] q[k] < cap,
    ensures
        q.len() <= cap,
{
    broadcast use range_set_properties;

    let r = Set::<u32>::range(0u32, cap);
    assert(r.len() == cap);
    q.unique_seq_to_set();
    assert forall|x: u32| q.to_set().contains(x) implies r.contains(x) by {
        let k = choose|k: int| 0 <= k < q.len() && q[k] == x;
        assert(q[k] < cap);
    }
    lemma_len_subset(q.to_set(), r);
}

/// How the lowest non-empty level moves when one level's queue is replaced.
pub proof fn lemma_up_update(q: Seq<Seq<u32>>, l: int, e: Seq<u32>)
    requires
        0 <= l < q.len(),
    ensures
        e.len() > 0 ==> first_nonempty_up(q.update(l, e), 0) == (if l < first_nonempty_up(q, 0) {
            l
        } else {
            first_nonempty_up(q, 0)
        }),
        e.len() == 0 && l != first_nonempty_up(q, 0) ==> first_nonempty_up(q.update(l, e), 0)
            == first_nonempty_up(q, 0),
        e.len() == 0 && l == first_nonempty_up(q, 0) ==> forall|j: int|
            0 <= j <= l ==> #[trigger] q.update(l, e)[j].len() == 0,
{
    let q2 = q.update(l, e);
    let b = first_nonempty_up(q, 0);
    lemma_up_props(q, 0);
    if e.len() > 0 {
        let r = if l < b { l } else { b };
        assert forall|j: int| 0 <= j < r implies #[trigger] q2[j].len() == 0 by {
            assert(q[j].len() == 0);
        }
        lemma_up_char(q2, 0, r);
    } else if l != b {
        assert forall|j: int| 0 <= j < b implies #[trigger] q2[j].len() == 0 by {
            assert(q[j].len() == 0);
        }
        lemma_up_char(q2, 0, b);
    } else {
        assert forall|j: int| 0 <= j <= l implies #[trigger] q2[j].len() == 0 by {
            if j < l {
                assert(q[j].len() == 0);
            }
        }
    }
}

/// How the highest non-empty level moves when one level's queue is replaced.
pub proof fn lemma_down_update(q: Seq<Seq<u32>>, l: int, e: Seq<u32>)
    requires
        0 <= l < q.len(),
    ensures
        e.len() > 0 ==> last_nonempty_down(q.update(l, e), q.len() - 1) == (if l > last_nonempty_down(
            q,
            q.len() - 1,
        ) {
            l
        } else {
            last_nonempty_down(q, q.len() - 1)
        }),
        e.len() == 0 && l != last_nonempty_down(q, q.len() - 1) ==> last_nonempty_down(
            q.update(l, e),
            q.len() - 1,
        ) == last_nonempty_down(q, q.len() - 1),
        e.len() == 0 && l == last_nonempty_down(q, q.len() - 1) ==> forall|j: int|
            l <= j < q.len() ==> #[trigger] q.update(l, e)[j].len() == 0,
{
    let q2 = q.update(l, e);
    let top = q.len() - 1;
    let b = last_nonempty_down(q, top);
    lemma_down_props(q, top);
    if e.len() > 0 {
        let r = if l > b { l } else { b };
        assert forall|j: int| r < j <= top implies #[trigger] q2[j].len() == 0 by {
            assert(q[j].len() == 0);
        }
        lemma_down_char(q2, top, r);
    } else if l != b {
        assert forall|j: int| b < j <= top implies #[trigger] q2[j].len() == 0 by {
            assert(q[j].len() == 0);
        }
        lemma_down_char(q2, top, b);
    } else {
        assert forall|j: int| l <= j < q.len() implies #[trigger] q2[j].len() == 0 by {
            if j > l {
                assert(q[j].len() == 0);
            }
        }
    }
}

/// Levels below the first non-empty one contribute nothing to a snapshot.
pub proof fn lemma_levels_up_skip(v: BookView, s: int, i: int, r: int, depth: nat)
    requires
        0 <= i <= r,
        forall|j: int| i <= j < r ==> #[trigger] v.queues[s][j].len() == 0,
    ensures
        levels_up(v, s, i, depth) == levels_up(v, s, r, depth),
    decreases r - i,
{
    if i < r {
        lemma_levels_up_skip(v, s, i + 1, r, depth);
    }
}

pub proof fn lemma_levels_down_skip(v: BookView, s: int, i: int, r: int, depth: nat)
    requires
        -1 <= r <= i,
        forall|j: int| r < j <= i ==> #[trigger] v.queues[s][j].len() == 0,
    ensures
        levels_down(v, s, i, depth) == levels_down(v, s, r, depth),
    decreases i - r,
{
    if r < i {
        lemma_levels_down_skip(v, s, i - 1, r, depth);
    }
}

} // verus!
