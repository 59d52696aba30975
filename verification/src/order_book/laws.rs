//! Laws of the order book, stated over its model.
use vstd::prelude::*;
use crate::order_book::model::{
    BookView, Side, Trade, OrderId, Qty, TickIdx, RestingOrder, match_orders, can_match,
    best_opposite, best_maker, remove_slot, reduce_slot, rest_slot, cancel_spec, side_ix,
    limit_order_spec,
};

verus! {

/// Total quantity of a sequence of trades.
pub open spec fn trades_qty(ts: Seq<Trade>) -> int
    decreases ts.len(),
{
    if ts.len() == 0 {
        0
    } else {
        ts[0].qty + trades_qty(ts.drop_first())
    }
}

/// The index only names resting orders, each under its own id.
pub open spec fn index_consistent(v: BookView) -> bool {
    forall|id: OrderId|
        #[trigger] v.index.contains_key(id) ==> v.orders.contains_key(v.index[id])
            && v.orders[v.index[id]].id == id
}

/// The model's own invariant: each queue holds distinct resting slots of
/// its side and level, every resting order sits in its queue with a
/// positive quantity, the index is consistent, and free slots are distinct
/// and hold no order.
pub open spec fn view_wf(v: BookView) -> bool {
    &&& v.queues.len() == 2
    &&& v.queues[0].len() == v.n_levels
    &&& v.queues[1].len() == v.n_levels
    &&& forall|s: int, l: int, k: int|
        0 <= s < 2 && 0 <= l < v.n_levels && 0 <= k < v.queues[s][l].len() ==> {
            &&& v.orders.contains_key(#[trigger] v.queues[s][l][k])
            &&& side_ix(v.orders[v.queues[s][l][k]].side) == s
            &&& v.orders[v.queues[s][l][k]].price_idx as int == l
        }
    &&& forall|s: int, l: int|
        0 <= s < 2 && 0 <= l < v.n_levels ==> (#[trigger] v.queues[s][l]).no_duplicates()
    &&& forall|x: u32|
        #[trigger] v.orders.contains_key(x) ==> {
            &&& v.orders[x].qty > 0
            &&& (v.orders[x].price_idx as int) < v.n_levels
            &&& v.queues[side_ix(v.orders[x].side)][v.orders[x].price_idx as int].contains(x)
        }
    &&& index_consistent(v)
    &&& v.free.no_duplicates()
    &&& forall|k: int| 0 <= k < v.free.len() ==> !v.orders.contains_key(#[trigger] v.free[k])
}

proof fn lemma_remove_value_facts(q: Seq<u32>, x: u32)
    requires
        q.contains(x),
    ensures
        q.remove_value(x).len() == q.len() - 1,
        forall|j: int| 0 <= j < q.remove_value(x).len() ==> #[trigger] q.contains(q.remove_value(x)[j]),
        q.no_duplicates() ==> q.remove_value(x).no_duplicates(),
        q.no_duplicates() ==> !q.remove_value(x).contains(x),
        forall|y: u32| q.contains(y) && y != x ==> #[trigger] q.remove_value(x).contains(y),
{
    q.index_of_first_ensures(x);
    let i = q.index_of_first(x).unwrap();
    q.remove_ensures(i);
    let r = q.remove_value(x);
    assert forall|j: int| 0 <= j < r.len() implies #[trigger] q.contains(r[j]) by {
        if j < i {
            assert(r[j] == q[j]);
        } else {
            assert(r[j] == q[j + 1]);
        }
    }
    if q.no_duplicates() {
        assert forall|a: int, b: int| 0 <= a < r.len() && 0 <= b < r.len() && a != b implies r[a] != r[b] by {
            let a1 = if a < i { a } else { a + 1 };
            let b1 = if b < i { b } else { b + 1 };
            assert(r[a] == q[a1] && r[b] == q[b1]);
        }
        assert(!r.contains(x)) by {
            if r.contains(x) {
                let j = choose|j: int| 0 <= j < r.len() && r[j] == x;
                let j1 = if j < i { j } else { j + 1 };
                assert(r[j] == q[j1]);
            }
        }
    }
    assert forall|y: u32| q.contains(y) && y != x implies #[trigger] r.contains(y) by {
        let j = choose|j: int| 0 <= j < q.len() && q[j] == y;
        if j < i {
            assert(r[j] == y);
        } else {
            assert(j != i);
            assert(r[j - 1] == y);
        }
    }
}

/// Taking a resting order out keeps the model's invariant.
pub proof fn remove_slot_keeps_view_wf(v: BookView, x: u32)
    requires
        view_wf(v),
        v.orders.contains_key(x),
    ensures
        view_wf(remove_slot(v, x)),
{
    let o = v.orders[x];
    let s = side_ix(o.side);
    let l = o.price_idx as int;
    let q = v.queues[s][l];
    let w = remove_slot(v, x);
    assert(q.no_duplicates());
    lemma_remove_value_facts(q, x);
    assert forall|s2: int, l2: int, k: int|
        0 <= s2 < 2 && 0 <= l2 < w.n_levels && 0 <= k < w.queues[s2][l2].len() implies {
            &&& w.orders.contains_key(#[trigger] w.queues[s2][l2][k])
            &&& side_ix(w.orders[w.queues[s2][l2][k]].side) == s2
            &&& w.orders[w.queues[s2][l2][k]].price_idx as int == l2
        } by {
        let y = w.queues[s2][l2][k];
        if s2 == s && l2 == l {
            assert(q.contains(y));
            let j = choose|j: int| 0 <= j < q.len() && q[j] == y;
            assert(v.queues[s][l][j] == y);
            assert(y != x) by {
                if y == x {
                    assert(w.queues[s][l].contains(x));
                }
            }
        } else {
            assert(w.queues[s2][l2] == v.queues[s2][l2]);
            assert(v.queues[s2][l2][k] == y);
            assert(y != x) by {
                if y == x {
                    assert(v.orders[x].price_idx as int == l2);
                }
            }
        }
    }
    assert forall|s2: int, l2: int| 0 <= s2 < 2 && 0 <= l2 < w.n_levels implies (#[trigger] w.queues[s2][l2]).no_duplicates() by {
        assert(v.queues[s2][l2].no_duplicates());
    }
    assert forall|y: u32| #[trigger] w.orders.contains_key(y) implies {
        &&& w.orders[y].qty > 0
        &&& (w.orders[y].price_idx as int) < w.n_levels
        &&& w.queues[side_ix(w.orders[y].side)][w.orders[y].price_idx as int].contains(y)
    } by {
        assert(v.orders.contains_key(y));
        let s3 = side_ix(v.orders[y].side);
        let l3 = v.orders[y].price_idx as int;
        if s3 != s || l3 != l {
            assert(w.queues[s3][l3] == v.queues[s3][l3]);
        }
    }
    assert forall|id: OrderId| #[trigger] w.index.contains_key(id) implies w.orders.contains_key(w.index[id])
        && w.orders[w.index[id]].id == id by {
        assert(v.index.contains_key(id));
    }
    assert forall|k: int| 0 <= k < w.free.len() implies !w.orders.contains_key(#[trigger] w.free[k]) by {
        if k > 0 {
            assert(w.free[k] == v.free[k - 1]);
        }
    }
    assert(w.free.no_duplicates()) by {
        assert forall|a: int, b: int| 0 <= a < w.free.len() && 0 <= b < w.free.len() && a != b implies w.free[a] != w.free[b] by {
            if a > 0 {
                assert(w.free[a] == v.free[a - 1]);
            }
            if b > 0 {
                assert(w.free[b] == v.free[b - 1]);
            }
        }
    }
}

/// Taking part of a resting order's quantity keeps the model's invariant.
pub proof fn reduce_slot_keeps_view_wf(v: BookView, x: u32, by: Qty)
    requires
        view_wf(v),
        v.orders.contains_key(x),
        by < v.orders[x].qty,
    ensures
        view_wf(reduce_slot(v, x, by)),
{
    let w = reduce_slot(v, x, by);
    assert(w.orders.dom() =~= v.orders.dom());
    assert forall|y: u32| #[trigger] w.orders.contains_key(y) implies {
        &&& w.orders[y].qty > 0
        &&& (w.orders[y].price_idx as int) < w.n_levels
        &&& w.queues[side_ix(w.orders[y].side)][w.orders[y].price_idx as int].contains(y)
    } by {
        assert(v.orders.contains_key(y));
    }
}

/// In a well-formed book the best opposite level, when a taker can trade,
/// starts with a resting order of positive quantity.
pub proof fn best_maker_rests(v: BookView, side: Side, limit: Option<TickIdx>)
    requires
        view_wf(v),
        can_match(v, side, limit),
    ensures
        v.orders.contains_key(best_maker(v, side)),
        v.orders[best_maker(v, side)].qty > 0,
{
    crate::order_book::model::lemma_up_props(v.queues[1], 0);
    crate::order_book::model::lemma_down_props(v.queues[0], v.n_levels - 1);
    let o = crate::order_book::model::opposite_ix(side);
    let b = best_opposite(v, side);
    assert(v.queues[o][b][0] == v.queues[o][b][0]);
}

/// Matching neither creates nor destroys quantity: what traded plus what
/// is left is what the taker brought.
pub proof fn match_conserves_quantity(
    v: BookView,
    taker: OrderId,
    side: Side,
    limit: Option<TickIdx>,
    qty: Qty,
)
    ensures
        trades_qty(match_orders(v, taker, side, limit, qty).1) + match_orders(v, taker, side, limit, qty).2
            == qty,
    decreases qty,
{
    let slot = best_maker(v, side);
    let maker = v.orders[slot];
    if qty == 0 || !can_match(v, side, limit) || maker.qty == 0 {
    } else {
        let traded: u32 = if qty < maker.qty { qty } else { maker.qty };
        let next = if traded == maker.qty { remove_slot(v, slot) } else { reduce_slot(v, slot, traded) };
        match_conserves_quantity(next, taker, side, limit, (qty - traded) as u32);
        let r = match_orders(next, taker, side, limit, (qty - traded) as u32);
        let t = match_orders(v, taker, side, limit, qty).1;
        assert(t.drop_first() =~= r.1);
    }
}

/// Every trade a taker makes carries its id and a positive quantity.
pub proof fn match_trades_are_the_takers(
    v: BookView,
    taker: OrderId,
    side: Side,
    limit: Option<TickIdx>,
    qty: Qty,
)
    ensures
        forall|i: int|
            0 <= i < match_orders(v, taker, side, limit, qty).1.len() ==> {
                &&& (#[trigger] match_orders(v, taker, side, limit, qty).1[i]).taker_id == taker
                &&& match_orders(v, taker, side, limit, qty).1[i].qty > 0
            },
    decreases qty,
{
    let slot = best_maker(v, side);
    let maker = v.orders[slot];
    if qty == 0 || !can_match(v, side, limit) || maker.qty == 0 {
    } else {
        let traded: u32 = if qty < maker.qty { qty } else { maker.qty };
        let next = if traded == maker.qty { remove_slot(v, slot) } else { reduce_slot(v, slot, traded) };
        match_trades_are_the_takers(next, taker, side, limit, (qty - traded) as u32);
        let r = match_orders(next, taker, side, limit, (qty - traded) as u32);
        let t = match_orders(v, taker, side, limit, qty).1;
        assert forall|i: int| 0 < i < t.len() implies t[i] == r.1[i - 1] by {}
    }
}

/// A limit never trades through its price: a buy pays at most its limit,
/// a sell receives at least its limit.
pub proof fn match_respects_limit(v: BookView, taker: OrderId, side: Side, p: TickIdx, qty: Qty)
    requires
        view_wf(v),
    ensures
        forall|i: int|
            0 <= i < match_orders(v, taker, side, Some(p), qty).1.len() ==> match side {
                Side::Buy => (#[trigger] match_orders(v, taker, side, Some(p), qty).1[i]).price_idx <= p,
                Side::Sell => match_orders(v, taker, side, Some(p), qty).1[i].price_idx >= p,
            },
    decreases qty,
{
    let slot = best_maker(v, side);
    let maker = v.orders[slot];
    if qty == 0 || !can_match(v, side, Some(p)) || maker.qty == 0 {
    } else {
        let traded: u32 = if qty < maker.qty { qty } else { maker.qty };
        let next = if traded == maker.qty { remove_slot(v, slot) } else { reduce_slot(v, slot, traded) };
        best_maker_rests(v, side, Some(p));
        if traded == maker.qty {
            remove_slot_keeps_view_wf(v, slot);
        } else {
            reduce_slot_keeps_view_wf(v, slot, traded);
        }
        match_respects_limit(next, taker, side, p, (qty - traded) as u32);
        let r = match_orders(next, taker, side, Some(p), (qty - traded) as u32);
        let t = match_orders(v, taker, side, Some(p), qty).1;
        assert forall|i: int| 0 < i < t.len() implies t[i] == r.1[i - 1] by {}
        crate::order_book::model::lemma_up_props(v.queues[1], 0);
        crate::order_book::model::lemma_down_props(v.queues[0], v.n_levels - 1);
        let b = best_opposite(v, side);
        let o = crate::order_book::model::opposite_ix(side);
        assert(v.queues[o][b][0] == slot);
        assert(v.orders[slot].price_idx as int == b);
    }
}

/// A market order never adds a resting order or an index entry: the book
/// after matching rests a subset of the orders it rested before.
pub proof fn market_order_never_rests(v: BookView, taker: OrderId, side: Side, qty: Qty)
    requires
        view_wf(v),
    ensures
        match_orders(v, taker, side, None, qty).0.orders.dom().subset_of(v.orders.dom()),
        match_orders(v, taker, side, None, qty).0.index.dom().subset_of(v.index.dom()),
    decreases qty,
{
    let slot = best_maker(v, side);
    let maker = v.orders[slot];
    if qty == 0 || !can_match(v, side, None) || maker.qty == 0 {
    } else {
        let traded: u32 = if qty < maker.qty { qty } else { maker.qty };
        let next = if traded == maker.qty { remove_slot(v, slot) } else { reduce_slot(v, slot, traded) };
        best_maker_rests(v, side, None);
        if traded == maker.qty {
            remove_slot_keeps_view_wf(v, slot);
        } else {
            reduce_slot_keeps_view_wf(v, slot, traded);
            assert(next.orders.dom() =~= v.orders.dom());
        }
        market_order_never_rests(next, taker, side, (qty - traded) as u32);
    }
}

/// Cancelling an order the index knows leaves no index entry for its id,
/// so cancelling it again answers `false` and changes nothing.
pub proof fn cancel_twice(v: BookView, id: OrderId)
    requires
        index_consistent(v),
    ensures
        !cancel_spec(v, id).0.index.contains_key(id),
        cancel_spec(cancel_spec(v, id).0, id) == (cancel_spec(v, id).0, false),
{
}

/// Resting an order that trades nothing and cancelling it right away
/// gives back the very same book, free list order included.
pub proof fn rest_then_cancel_restores(v: BookView, id: OrderId, side: Side, price_idx: TickIdx, qty: Qty)
    requires
        v.queues.len() == 2,
        0 <= price_idx < v.queues[side_ix(side)].len(),
        v.free.len() > 0,
        !v.orders.contains_key(v.free[0]),
        !v.queues[side_ix(side)][price_idx as int].contains(v.free[0]),
        !v.index.contains_key(id),
    ensures
        cancel_spec(rest_slot(v, id, side, price_idx, qty), id) == (v, true),
{
    let x = v.free[0];
    let s = side_ix(side);
    let l = price_idx as int;
    let q = v.queues[s][l];
    let w = rest_slot(v, id, side, price_idx, qty);
    assert(w.index[id] == x);
    let q2 = q.push(x);
    assert(q2[q.len() as int] == x);
    q2.index_of_first_ensures(x);
    let i = q2.index_of_first(x).unwrap();
    assert(i == q.len()) by {
        if i < q.len() {
            assert(q[i] == x);
        }
    }
    q2.remove_ensures(i);
    assert(q2.remove_value(x) =~= q);
    let r = remove_slot(w, x);
    assert(r.queues[s] =~= v.queues[s]);
    assert(r.queues =~= v.queues);
    assert(r.free =~= v.free);
    assert(r.orders =~= v.orders);
    assert(r.index =~= v.index);
    assert(r =~= v);
}


/// Matching never takes an arena slot: every filled maker gives its slot
/// back, and a taker left with quantity after trading at all has filled
/// (and freed) the first maker it met.
pub proof fn matching_never_takes_slots(
    v: BookView,
    taker: OrderId,
    side: Side,
    limit: Option<TickIdx>,
    qty: Qty,
)
    ensures
        match_orders(v, taker, side, limit, qty).0.free.len() >= v.free.len(),
        qty > 0 && can_match(v, side, limit) && v.orders[best_maker(v, side)].qty > 0
            && match_orders(v, taker, side, limit, qty).2 > 0
            ==> match_orders(v, taker, side, limit, qty).0.free.len() > v.free.len(),
    decreases qty,
{
    let slot = best_maker(v, side);
    let maker = v.orders[slot];
    if qty == 0 || !can_match(v, side, limit) || maker.qty == 0 {
    } else {
        let traded: u32 = if qty < maker.qty { qty } else { maker.qty };
        let next = if traded == maker.qty { remove_slot(v, slot) } else { reduce_slot(v, slot, traded) };
        matching_never_takes_slots(next, taker, side, limit, (qty - traded) as u32);
        if traded != maker.qty {
            assert(qty - traded == 0);
            assert(match_orders(next, taker, side, limit, 0).2 == 0);
        }
    }
}


/// Price-time priority: a taker that can trade trades first with the
/// oldest order at the best opposite level, at that level's price, for as
/// much as both hold.
pub proof fn first_trade_is_oldest_at_best(v: BookView, taker: OrderId, side: Side, limit: Option<TickIdx>, qty: Qty)
    requires
        view_wf(v),
        qty > 0,
        can_match(v, side, limit),
    ensures
        match_orders(v, taker, side, limit, qty).1.len() > 0,
        ({
            let t = match_orders(v, taker, side, limit, qty).1[0];
            let maker = v.orders[best_maker(v, side)];
            &&& t.maker_id == maker.id
            &&& t.taker_id == taker
            &&& t.price_idx as int == best_opposite(v, side)
            &&& t.qty == (if qty < maker.qty { qty } else { maker.qty })
        }),
{
    best_maker_rests(v, side, limit);
    crate::order_book::model::lemma_up_props(v.queues[1], 0);
    crate::order_book::model::lemma_down_props(v.queues[0], v.n_levels - 1);
    let o = crate::order_book::model::opposite_ix(side);
    let b = best_opposite(v, side);
    let slot = best_maker(v, side);
    assert(v.queues[o][b][0] == slot);
    assert(v.orders[slot].price_idx as int == b);
    let maker = v.orders[slot];
    let traded: u32 = if qty < maker.qty { qty } else { maker.qty };
    let next = if traded == maker.qty { remove_slot(v, slot) } else { reduce_slot(v, slot, traded) };
    let r = match_orders(next, taker, side, limit, (qty - traded) as u32);
    assert(match_orders(v, taker, side, limit, qty).1 == seq![Trade {
        maker_id: maker.id,
        taker_id: taker,
        price_idx: b as u32,
        qty: traded,
    }] + r.1);
}


/// The far level a market order reaches: the top level for a buy, level
/// zero for a sell.
pub open spec fn far_level(v: BookView, side: Side) -> TickIdx {
    match side {
        Side::Buy => (v.n_levels - 1) as TickIdx,
        Side::Sell => 0,
    }
}

/// A market order trades exactly as a limit order at the far level would:
/// the same book, the same trades in the same order, the same quantity
/// left.
pub proof fn market_order_is_a_limit_at_the_far_level(v: BookView, taker: OrderId, side: Side, qty: Qty)
    requires
        0 < v.n_levels <= u32::MAX + 1,
    ensures
        match_orders(v, taker, side, None, qty) == match_orders(v, taker, side, Some(far_level(v, side)), qty),
    decreases qty,
{
    let slot = best_maker(v, side);
    let maker = v.orders[slot];
    assert(can_match(v, side, None) == can_match(v, side, Some(far_level(v, side))));
    if qty == 0 || !can_match(v, side, None) || maker.qty == 0 {
    } else {
        let traded: u32 = if qty < maker.qty { qty } else { maker.qty };
        let next = if traded == maker.qty { remove_slot(v, slot) } else { reduce_slot(v, slot, traded) };
        assert(next.n_levels == v.n_levels);
        assert(far_level(next, side) == far_level(v, side));
        market_order_is_a_limit_at_the_far_level(next, taker, side, (qty - traded) as u32);
    }
}

/// A market order left with quantity has taken the whole opposite side.
pub proof fn unfilled_market_order_empties_the_side(v: BookView, taker: OrderId, side: Side, qty: Qty)
    requires
        view_wf(v),
    ensures
        match_orders(v, taker, side, None, qty).2 > 0 ==> !can_match(match_orders(v, taker, side, None, qty).0, side, None),
    decreases qty,
{
    let slot = best_maker(v, side);
    let maker = v.orders[slot];
    if qty == 0 || !can_match(v, side, None) {
    } else {
        best_maker_rests(v, side, None);
        let traded: u32 = if qty < maker.qty { qty } else { maker.qty };
        let next = if traded == maker.qty { remove_slot(v, slot) } else { reduce_slot(v, slot, traded) };
        if traded == maker.qty {
            remove_slot_keeps_view_wf(v, slot);
        } else {
            reduce_slot_keeps_view_wf(v, slot, traded);
            assert(match_orders(next, taker, side, None, 0).2 == 0);
        }
        unfilled_market_order_empties_the_side(next, taker, side, (qty - traded) as u32);
    }
}

/// A limit order that cannot trade rests, and cancelling it right away
/// gives back the very same book.
pub proof fn limit_then_cancel_restores(v: BookView, id: OrderId, side: Side, price_idx: TickIdx, qty: Qty)
    requires
        view_wf(v),
        (price_idx as int) < v.n_levels,
        qty > 0,
        !can_match(v, side, Some(price_idx)),
        !v.index.contains_key(id),
        v.free.len() > 0,
    ensures
        cancel_spec(limit_order_spec(v, id, side, price_idx, qty).0, id) == (v, true),
{
    let x = v.free[0];
    assert(!v.orders.contains_key(x));
    let q = v.queues[side_ix(side)][price_idx as int];
    assert(!q.contains(x)) by {
        if q.contains(x) {
            let k = choose|k: int| 0 <= k < q.len() && q[k] == x;
            assert(v.orders.contains_key(v.queues[side_ix(side)][price_idx as int][k]));
        }
    }
    rest_then_cancel_restores(v, id, side, price_idx, qty);
}

} // verus!
