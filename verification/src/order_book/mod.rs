//! High-performance limit order book.
//!
//! - Price levels are a dense array indexed by tick, so the best price is
//!   read in O(1).
//! - Each level's queue is an intrusive doubly linked list whose nodes live
//!   in an arena and link by `u32` slot numbers, so a cancel unlinks in O(1).
//! - The arena is allocated once; freed slots go on a free list and are
//!   reused, and trades are appended to a buffer the caller owns.
pub mod model;
pub mod laws;

use vstd::prelude::*;
use std::collections::HashMap;
use crate::order_book::model::{
    BookView, RestingOrder, side_ix, queue_qty, first_nonempty_up, last_nonempty_down,
    remove_slot, reduce_slot, rest_slot, match_orders, limit_order_spec, cancel_spec,
    can_match, best_opposite, best_maker, opposite_ix, levels_up, levels_down, top_levels_spec,
    empty_book, lemma_up_char, lemma_up_props, lemma_down_char, lemma_down_props,
    lemma_queue_qty_frame, lemma_queue_qty_push, lemma_queue_qty_remove, lemma_queue_qty_bounds,
    lemma_remove_value_at, lemma_distinct_below, lemma_levels_up_skip, lemma_levels_down_skip, NIL,
    lemma_up_update, lemma_down_update, seq_without, lemma_seq_without,
};
pub use crate::order_book::model::{OrderId, Qty, TickIdx, Side, Trade};
use crate::order_book::laws::view_wf;

verus! {

broadcast use vstd::std_specs::hash::group_hash_axioms;

/// One arena slot: a resting order and its links inside its level's queue
/// (or, for a free slot, the link to the next free slot).
#[derive(Clone, Copy)]
struct OrderNode {
    id: OrderId,
    /// Remaining quantity.
    qty: Qty,
    price_idx: TickIdx,
    /// The order before this one at the same level (earlier in time).
    prev: u32,
    /// The order after this one at the same level, or the next free slot.
    next: u32,
    side: Side,
}

/// One price level: a FIFO list whose head is the oldest order.
#[derive(Clone, Copy)]
struct PriceLevel {
    head: u32,
    tail: u32,
    /// Kept up to date so that the depth of a level needs no walk.
    total_qty: u64,
}

impl PriceLevel {
    fn is_empty(&self) -> (r: bool)
        ensures
            r == (self.head == NIL),
    {
        self.head == NIL
    }
}

pub struct OrderBook {
    arena: Vec<OrderNode>,
    free_head: u32,
    bid_levels: Vec<PriceLevel>,
    ask_levels: Vec<PriceLevel>,
    n_levels: usize,
    /// Order id to arena slot.
    index: HashMap<OrderId, u32>,
    /// Highest bid level holding an order; -1 when bids are empty.
    best_bid: i64,
    /// Lowest ask level holding an order; `n_levels` when asks are empty.
    best_ask: i64,
    /// The slots of each queue, per side and level, oldest first.
    queues: Ghost<Seq<Seq<Seq<u32>>>>,
    /// The free list, next slot to use first.
    free: Ghost<Seq<u32>>,
    /// The slots that hold a resting order.
    resting: Ghost<Set<u32>>,
}

spec fn head_of(q: Seq<u32>) -> u32 {
    if q.len() == 0 { NIL } else { q[0] }
}

spec fn tail_of(q: Seq<u32>) -> u32 {
    if q.len() == 0 { NIL } else { q[q.len() - 1] }
}

spec fn prev_in(q: Seq<u32>, k: int) -> u32 {
    if k == 0 { NIL } else { q[k - 1] }
}

spec fn next_in(q: Seq<u32>, k: int) -> u32 {
    if k + 1 >= q.len() { NIL } else { q[k + 1] }
}

spec fn node_order(n: OrderNode) -> RestingOrder {
    RestingOrder { id: n.id, qty: n.qty, side: n.side, price_idx: n.price_idx }
}

impl View for OrderBook {
    type V = BookView;

    closed spec fn view(&self) -> BookView {
        BookView {
            n_levels: self.n_levels as nat,
            capacity: self.arena@.len(),
            queues: self.queues@,
            free: self.free@,
            orders: Map::new(
                |x: u32| self.resting@.contains(x),
                |x: u32| node_order(self.arena@[x as int]),
            ),
            index: self.index@,
        }
    }
}

impl OrderBook {
    spec fn levels_of(&self, s: int) -> Seq<PriceLevel> {
        if s == 0 { self.bid_levels@ } else { self.ask_levels@ }
    }

    spec fn sizes_ok(&self) -> bool {
        &&& 0 < self.arena@.len() < NIL
        &&& 0 < self.n_levels <= i64::MAX
        &&& self.bid_levels@.len() == self.n_levels
        &&& self.ask_levels@.len() == self.n_levels
        &&& self.queues@.len() == 2
        &&& self.queues@[0].len() == self.n_levels
        &&& self.queues@[1].len() == self.n_levels
    }

    /// Level `l` of side `s` is the linked list of its queue, with the
    /// queue's total quantity.
    #[verifier::opaque]
    spec fn level_ok(&self, s: int, l: int) -> bool {
        let q = self.queues@[s][l];
        let lv = self.levels_of(s)[l];
        &&& lv.head == head_of(q)
        &&& lv.tail == tail_of(q)
        &&& lv.total_qty == queue_qty(self@.orders, q)
        &&& q.no_duplicates()
        &&& forall|k: int|
            #![trigger q[k]]
            0 <= k < q.len() ==> {
                &&& self.resting@.contains(q[k])
                &&& (q[k] as int) < self.arena@.len()
                &&& self.arena@[q[k] as int].prev == prev_in(q, k)
                &&& self.arena@[q[k] as int].next == next_in(q, k)
                &&& side_ix(self.arena@[q[k] as int].side) == s
                &&& self.arena@[q[k] as int].price_idx as int == l
            }
    }

    spec fn levels_ok(&self) -> bool {
        forall|s: int, l: int| 0 <= s < 2 && 0 <= l < self.n_levels ==> #[trigger] self.level_ok(s, l)
    }

    /// Every resting slot sits in the queue of its own side and level.
    #[verifier::opaque]
    spec fn resting_ok(&self) -> bool {
        forall|x: u32|
            #[trigger] self.resting@.contains(x) ==> {
                &&& (x as int) < self.arena@.len()
                &&& self.arena@[x as int].qty > 0
                &&& (self.arena@[x as int].price_idx as int) < self.n_levels
                &&& self.queues@[side_ix(self.arena@[x as int].side)][self.arena@[x as int].price_idx as int].contains(x)
            }
    }

    #[verifier::opaque]
    spec fn free_ok(&self) -> bool {
        &&& self.free@.no_duplicates()
        &&& self.free_head == head_of(self.free@)
        &&& forall|k: int|
            #![trigger self.free@[k]]
            0 <= k < self.free@.len() ==> {
                &&& (self.free@[k] as int) < self.arena@.len()
                &&& !self.resting@.contains(self.free@[k])
                &&& self.arena@[self.free@[k] as int].next == next_in(self.free@, k)
            }
    }

    #[verifier::opaque]
    spec fn index_ok(&self) -> bool {
        forall|id: OrderId|
            #[trigger] self.index@.contains_key(id) ==> {
                &&& self.resting@.contains(self.index@[id])
                &&& self.arena@[self.index@[id] as int].id == id
            }
    }

    spec fn cursors_ok(&self) -> bool {
        &&& self.best_ask as int == first_nonempty_up(self.queues@[1], 0)
        &&& self.best_bid as int == last_nonempty_down(self.queues@[0], self.n_levels - 1)
        &&& self.best_bid < self.best_ask
    }

    spec fn wf_core(&self) -> bool {
        &&& self.sizes_ok()
        &&& self.levels_ok()
        &&& self.resting_ok()
        &&& self.free_ok()
        &&& self.index_ok()
    }

    /// The book's internal invariant: the arena, the level lists, the free
    /// list, the index and the best-price cursors agree with the model.
    pub closed spec fn wf(&self) -> bool {
        &&& self.wf_core()
        &&& self.cursors_ok()
    }

    /// On side `s`, a level's list header is empty exactly when its queue is.
    spec fn heads_match(&self, s: int) -> bool {
        forall|l: int|
            0 <= l < self.n_levels ==> ((#[trigger] self.levels_of(s)[l]).head == NIL) == (
            self.queues@[s][l].len() == 0)
    }

    proof fn lemma_heads_match(&self)
        requires
            self.wf_core(),
        ensures
            self.heads_match(0),
            self.heads_match(1),
    {
        reveal(OrderBook::level_ok);
        assert forall|s: int, l: int| 0 <= s < 2 && 0 <= l < self.n_levels implies ((
        #[trigger] self.levels_of(s)[l]).head == NIL) == (self.queues@[s][l].len() == 0) by {
            assert(self.level_ok(s, l));
            let q = self.queues@[s][l];
            if q.len() > 0 {
                assert(q[0] == q[0]);
            }
        }
    }

    /// The lowest non-empty ask level at or above `from`, given that all
    /// ask levels below `from` are empty.
    fn rescan_best_ask(&self, from: usize) -> (r: i64)
        requires
            self.sizes_ok(),
            self.heads_match(1),
            from <= self.n_levels,
            forall|j: int| 0 <= j < from ==> #[trigger] self.queues@[1][j].len() == 0,
        ensures
            r as int == first_nonempty_up(self.queues@[1], 0),
    {
        let mut i = from;
        while i < self.n_levels && self.ask_levels[i].is_empty()
            invariant
                self.sizes_ok(),
                self.heads_match(1),
                from <= i <= self.n_levels,
                forall|j: int| 0 <= j < i ==> #[trigger] self.queues@[1][j].len() == 0,
            decreases self.n_levels - i,
        {
            proof {
                assert(self.levels_of(1)[i as int] == self.ask_levels@[i as int]);
            }
            i += 1;
        }
        proof {
            if i < self.n_levels {
                assert(self.levels_of(1)[i as int] == self.ask_levels@[i as int]);
            }
            lemma_up_char(self.queues@[1], 0, i as int);
        }
        i as i64
    }

    /// The highest non-empty bid level at or below `from`, given that all
    /// bid levels above `from` are empty.
    fn rescan_best_bid(&self, from: i64) -> (r: i64)
        requires
            self.sizes_ok(),
            self.heads_match(0),
            -1 <= from < self.n_levels,
            forall|j: int| from < j < self.n_levels ==> #[trigger] self.queues@[0][j].len() == 0,
        ensures
            r as int == last_nonempty_down(self.queues@[0], self.n_levels - 1),
    {
        let mut i = from;
        while i >= 0 && self.bid_levels[i as usize].is_empty()
            invariant
                self.sizes_ok(),
                self.heads_match(0),
                -1 <= i <= from,
                from < self.n_levels,
                forall|j: int| i < j < self.n_levels ==> #[trigger] self.queues@[0][j].len() == 0,
            decreases i + 1,
        {
            proof {
                assert(self.levels_of(0)[i as int] == self.bid_levels@[i as int]);
            }
            i -= 1;
        }
        proof {
            if i >= 0 {
                assert(self.levels_of(0)[i as int] == self.bid_levels@[i as int]);
            }
            lemma_down_char(self.queues@[0], self.n_levels - 1, i as int);
        }
        i
    }

    /// A level whose queue, list header and nodes are untouched keeps its
    /// invariant.
    proof fn lemma_level_frame(pre: OrderBook, post: OrderBook, s: int, l: int)
        requires
            pre.sizes_ok(),
            post.sizes_ok(),
            post.n_levels == pre.n_levels,
            post.arena@.len() == pre.arena@.len(),
            0 <= s < 2,
            0 <= l < pre.n_levels,
            pre.level_ok(s, l),
            post.queues@[s][l] == pre.queues@[s][l],
            post.levels_of(s)[l] == pre.levels_of(s)[l],
            forall|k: int|
                0 <= k < pre.queues@[s][l].len() ==> {
                    &&& #[trigger] post.arena@[pre.queues@[s][l][k] as int] == pre.arena@[pre.queues@[s][l][k] as int]
                    &&& post.resting@.contains(pre.queues@[s][l][k])
                },
        ensures
            post.level_ok(s, l),
    {
        reveal(OrderBook::level_ok);
        let q = pre.queues@[s][l];
        assert forall|k: int| 0 <= k < q.len() implies #[trigger] pre@.orders[q[k]].qty == post@.orders[q[k]].qty by {
            assert(post.arena@[q[k] as int] == pre.arena@[q[k] as int]);
        }
        lemma_queue_qty_frame(pre@.orders, post@.orders, q);
        assert forall|k: int| #![trigger q[k]] 0 <= k < q.len() implies {
            &&& post.resting@.contains(q[k])
            &&& (q[k] as int) < post.arena@.len()
            &&& post.arena@[q[k] as int].prev == prev_in(q, k)
            &&& post.arena@[q[k] as int].next == next_in(q, k)
            &&& side_ix(post.arena@[q[k] as int].side) == s
            &&& post.arena@[q[k] as int].price_idx as int == l
        } by {
            assert(post.arena@[q[k] as int] == pre.arena@[q[k] as int]);
        }
    }

    /// `post` is `pre` with the order in slot `x`, at position `k` of its
    /// queue, unlinked and its slot pushed on the free list.
    spec fn unlinked(pre: OrderBook, post: OrderBook, x: u32, k: int) -> bool {
        let node = pre.arena@[x as int];
        let s = side_ix(node.side);
        let l = node.price_idx as int;
        let q = pre.queues@[s][l];
        let lv = pre.levels_of(s)[l];
        &&& 0 <= k < q.len()
        &&& q[k] == x
        &&& post.n_levels == pre.n_levels
        &&& post.arena@.len() == pre.arena@.len()
        &&& forall|i: int|
            0 <= i < pre.arena@.len() && i != node.prev as int && i != node.next as int && i
                != x as int ==> #[trigger] post.arena@[i] == pre.arena@[i]
        &&& node.prev != NIL ==> post.arena@[node.prev as int] == (OrderNode {
            next: node.next,
            ..pre.arena@[node.prev as int]
        })
        &&& node.next != NIL ==> post.arena@[node.next as int] == (OrderNode {
            prev: node.prev,
            ..pre.arena@[node.next as int]
        })
        &&& post.arena@[x as int] == (OrderNode { next: pre.free_head, ..node })
        &&& post.free_head == x
        &&& post.levels_of(s) == pre.levels_of(s).update(
            l,
            PriceLevel {
                head: if node.prev == NIL { node.next } else { lv.head },
                tail: if node.next == NIL { node.prev } else { lv.tail },
                total_qty: (lv.total_qty - node.qty) as u64,
            },
        )
        &&& post.levels_of(1 - s) == pre.levels_of(1 - s)
        &&& post.index@ == pre.index@.remove(node.id)
        &&& post.queues@ == pre.queues@.update(s, pre.queues@[s].update(l, seq_without(q, k)))
        &&& post.free@ == seq![x] + pre.free@
        &&& post.resting@ == pre.resting@.remove(x)
    }

    /// Facts about `x`'s neighbours that the unlink lemmas share.
    proof fn lemma_unlink_facts(pre: OrderBook, post: OrderBook, x: u32, k: int)
        requires
            pre.wf_core(),
            pre.resting@.contains(x),
            Self::unlinked(pre, post, x, k),
        ensures
            ({
                let node = pre.arena@[x as int];
                let s = side_ix(node.side);
                let l = node.price_idx as int;
                let q = pre.queues@[s][l];
                &&& 0 <= s < 2
                &&& 0 <= l < pre.n_levels
                &&& pre.level_ok(s, l)
                &&& (x as int) < pre.arena@.len()
                &&& node.prev == prev_in(q, k)
                &&& node.next == next_in(q, k)
                &&& node.prev != NIL ==> (node.prev as int) < pre.arena@.len() && side_ix(
                    pre.arena@[node.prev as int].side,
                ) == s && pre.arena@[node.prev as int].price_idx as int == l
                    && pre.resting@.contains(node.prev)
                &&& node.next != NIL ==> (node.next as int) < pre.arena@.len() && side_ix(
                    pre.arena@[node.next as int].side,
                ) == s && pre.arena@[node.next as int].price_idx as int == l
                    && pre.resting@.contains(node.next)
            }),
    {
        reveal(OrderBook::resting_ok);
        let node = pre.arena@[x as int];
        let s = side_ix(node.side);
        let l = node.price_idx as int;
        let q = pre.queues@[s][l];
        assert(pre.resting@.contains(x));
        assert(pre.level_ok(s, l));
        reveal(OrderBook::level_ok);
        assert(q[k] == x);
        if k > 0 {
            assert(q[k - 1] == q[k - 1]);
        }
        if k + 1 < q.len() {
            assert(q[k + 1] == q[k + 1]);
        }
    }

    #[verifier::spinoff_prover]
    proof fn lemma_unlink_other_level(pre: OrderBook, post: OrderBook, x: u32, k: int, s2: int, l2: int)
        requires
            pre.wf_core(),
            pre.resting@.contains(x),
            Self::unlinked(pre, post, x, k),
            post.sizes_ok(),
            0 <= s2 < 2,
            0 <= l2 < pre.n_levels,
            s2 != side_ix(pre.arena@[x as int].side) || l2 != pre.arena@[x as int].price_idx as int,
        ensures
            post.level_ok(s2, l2),
    {
        Self::lemma_unlink_facts(pre, post, x, k);
        let node = pre.arena@[x as int];
        let s = side_ix(node.side);
        let l = node.price_idx as int;
        assert(pre.level_ok(s2, l2));
        let q3 = pre.queues@[s2][l2];
        assert forall|j: int| 0 <= j < q3.len() implies {
            &&& #[trigger] post.arena@[q3[j] as int] == pre.arena@[q3[j] as int]
            &&& post.resting@.contains(q3[j])
        } by {
            reveal(OrderBook::level_ok);
            assert(q3[j] == q3[j]);
        }
        if s2 == s {
            assert(post.queues@[s2][l2] == q3);
            assert(post.levels_of(s2)[l2] == pre.levels_of(s2)[l2]);
        } else {
            assert(post.queues@[s2] == pre.queues@[s2]);
            assert(post.levels_of(s2) == pre.levels_of(s2));
        }
        Self::lemma_level_frame(pre, post, s2, l2);
    }

    /// The node at position `j` of the shortened queue is linked as that
    /// position requires.
    #[verifier::spinoff_prover]
    proof fn lemma_unlink_pos(pre: OrderBook, post: OrderBook, x: u32, k: int, j: int)
        requires
            pre.wf_core(),
            pre.resting@.contains(x),
            Self::unlinked(pre, post, x, k),
            0 <= j < pre.queues@[side_ix(pre.arena@[x as int].side)][pre.arena@[x as int].price_idx as int].len() - 1,
        ensures
            ({
                let node = pre.arena@[x as int];
                let s = side_ix(node.side);
                let l = node.price_idx as int;
                let q2 = seq_without(pre.queues@[s][l], k);
                &&& post.resting@.contains(q2[j])
                &&& (q2[j] as int) < post.arena@.len()
                &&& post.arena@[q2[j] as int].prev == prev_in(q2, j)
                &&& post.arena@[q2[j] as int].next == next_in(q2, j)
                &&& side_ix(post.arena@[q2[j] as int].side) == s
                &&& post.arena@[q2[j] as int].price_idx as int == l
                &&& post.arena@[q2[j] as int].qty == pre.arena@[q2[j] as int].qty
                &&& post.arena@[q2[j] as int].id == pre.arena@[q2[j] as int].id
            }),
    {
        Self::lemma_unlink_facts(pre, post, x, k);
        let node = pre.arena@[x as int];
        let s = side_ix(node.side);
        let l = node.price_idx as int;
        let q = pre.queues@[s][l];
        let q2 = seq_without(q, k);
        reveal(OrderBook::level_ok);
        let y = q2[j];
        if j < k - 1 {
            assert(y == q[j]);
            assert(q[j] == q[j] && q[j + 1] == q[j + 1]);
            assert(y != node.prev && y != node.next && y != x);
            assert(post.arena@[y as int] == pre.arena@[y as int]);
            if j > 0 {
                assert(q2[j - 1] == q[j - 1]);
            }
            assert(q2[j + 1] == q[j + 1]);
        } else if j == k - 1 {
            assert(y == q[k - 1]);
            assert(q[k - 1] == q[k - 1]);
            if j > 0 {
                assert(q2[j - 1] == q[j - 1]);
            }
            if k + 1 < q.len() {
                assert(q2[k] == q[k + 1]);
            }
        } else if j == k {
            assert(y == q[k + 1]);
            assert(q[k + 1] == q[k + 1]);
            if k > 0 {
                assert(q2[k - 1] == q[k - 1]);
            }
            if k + 2 < q.len() {
                assert(q2[k + 1] == q[k + 2]);
            }
        } else {
            assert(y == q[j + 1]);
            assert(q[j + 1] == q[j + 1]);
            assert(y != node.prev && y != node.next && y != x);
            assert(post.arena@[y as int] == pre.arena@[y as int]);
            assert(q2[j - 1] == q[j]);
            if j + 1 < q2.len() {
                assert(q2[j + 1] == q[j + 2]);
            }
        }
    }

    #[verifier::spinoff_prover]
    proof fn lemma_unlink_same_level(pre: OrderBook, post: OrderBook, x: u32, k: int)
        requires
            pre.wf_core(),
            pre.resting@.contains(x),
            Self::unlinked(pre, post, x, k),
            post.sizes_ok(),
        ensures
            post.level_ok(side_ix(pre.arena@[x as int].side), pre.arena@[x as int].price_idx as int),
    {
        Self::lemma_unlink_facts(pre, post, x, k);
        let node = pre.arena@[x as int];
        let s = side_ix(node.side);
        let l = node.price_idx as int;
        let q = pre.queues@[s][l];
        let q2 = seq_without(q, k);
        assert forall|j: int| 0 <= j < q2.len() implies #[trigger] pre@.orders[q2[j]].qty
            == post@.orders[q2[j]].qty by {
            Self::lemma_unlink_pos(pre, post, x, k, j);
            reveal(OrderBook::level_ok);
            if j < k {
                assert(q[j] == q[j]);
            } else {
                assert(q[j + 1] == q[j + 1]);
            }
        }
        lemma_seq_without(q, k);
        lemma_queue_qty_remove(pre@.orders, q, k);
        lemma_queue_qty_frame(pre@.orders, post@.orders, q2);
        lemma_queue_qty_bounds(pre@.orders, q2);
        reveal(OrderBook::resting_ok);
        assert(pre@.orders[x].qty == node.qty);
        assert forall|j: int| #![trigger q2[j]] 0 <= j < q2.len() implies {
            &&& post.resting@.contains(q2[j])
            &&& (q2[j] as int) < post.arena@.len()
            &&& post.arena@[q2[j] as int].prev == prev_in(q2, j)
            &&& post.arena@[q2[j] as int].next == next_in(q2, j)
            &&& side_ix(post.arena@[q2[j] as int].side) == s
            &&& post.arena@[q2[j] as int].price_idx as int == l
        } by {
            Self::lemma_unlink_pos(pre, post, x, k, j);
        }
        reveal(OrderBook::level_ok);
        assert(q2.no_duplicates()) by {
            assert forall|a: int, b: int| 0 <= a < q2.len() && 0 <= b < q2.len() && a != b implies q2[a] != q2[b] by {
                let a1 = if a < k { a } else { a + 1 };
                let b1 = if b < k { b } else { b + 1 };
                assert(q[a1] == q[a1] && q[b1] == q[b1]);
            }
        }
        assert(post.queues@[s][l] == q2);
        let lv = pre.levels_of(s)[l];
        assert(post.levels_of(s)[l].total_qty == queue_qty(post@.orders, q2));
        if q2.len() > 0 {
            if k == 0 {
                assert(q2[0] == q[1]);
            } else {
                assert(q2[0] == q[0]);
            }
            if k == q.len() - 1 {
                assert(q2[q2.len() - 1] == q[k - 1]);
            } else {
                assert(q2[q2.len() - 1] == q[q.len() - 1]);
            }
        }
        assert(post.levels_of(s)[l].head == head_of(q2));
        assert(post.levels_of(s)[l].tail == tail_of(q2));
    }

    proof fn lemma_unlink_levels(pre: OrderBook, post: OrderBook, x: u32, k: int)
        requires
            pre.wf_core(),
            pre.resting@.contains(x),
            Self::unlinked(pre, post, x, k),
            post.sizes_ok(),
        ensures
            post.levels_ok(),
    {
        let node = pre.arena@[x as int];
        assert forall|s2: int, l2: int| 0 <= s2 < 2 && 0 <= l2 < post.n_levels implies #[trigger] post.level_ok(s2, l2) by {
            if s2 != side_ix(node.side) || l2 != node.price_idx as int {
                Self::lemma_unlink_other_level(pre, post, x, k, s2, l2);
            } else {
                Self::lemma_unlink_same_level(pre, post, x, k);
            }
        }
    }

    #[verifier::spinoff_prover]
    proof fn lemma_unlink_resting(pre: OrderBook, post: OrderBook, x: u32, k: int)
        requires
            pre.wf_core(),
            pre.resting@.contains(x),
            Self::unlinked(pre, post, x, k),
            post.sizes_ok(),
        ensures
            post.resting_ok(),
    {
        Self::lemma_unlink_facts(pre, post, x, k);
        let node = pre.arena@[x as int];
        let s = side_ix(node.side);
        let l = node.price_idx as int;
        let q = pre.queues@[s][l];
        let q2 = seq_without(q, k);
        reveal(OrderBook::resting_ok);
        assert forall|y: u32| #[trigger] post.resting@.contains(y) implies {
            &&& (y as int) < post.arena@.len()
            &&& post.arena@[y as int].qty > 0
            &&& (post.arena@[y as int].price_idx as int) < post.n_levels
            &&& post.queues@[side_ix(post.arena@[y as int].side)][post.arena@[y as int].price_idx as int].contains(y)
        } by {
            assert(pre.resting@.contains(y));
            assert(y != x);
            let s3 = side_ix(pre.arena@[y as int].side);
            let l3 = pre.arena@[y as int].price_idx as int;
            assert(post.arena@[y as int].qty == pre.arena@[y as int].qty);
            assert(side_ix(post.arena@[y as int].side) == s3);
            assert(post.arena@[y as int].price_idx as int == l3);
            let q3 = pre.queues@[s3][l3];
            assert(q3.contains(y));
            let j = choose|j: int| 0 <= j < q3.len() && q3[j] == y;
            if s3 == s && l3 == l {
                reveal(OrderBook::level_ok);
                assert(q3 == q);
                assert(q[k] == x);
                assert(j != k);
                assert(post.queues@[s3][l3] == q2);
                if j < k {
                    assert(q2[j] == y);
                } else {
                    assert(q2[j - 1] == y);
                }
            } else {
                assert(post.queues@[s3][l3] == q3);
            }
        }
    }

    #[verifier::spinoff_prover]
    #[verifier::rlimit(60)]
    proof fn lemma_unlink_free_index(pre: OrderBook, post: OrderBook, x: u32, k: int)
        requires
            pre.wf_core(),
            pre.resting@.contains(x),
            Self::unlinked(pre, post, x, k),
            post.sizes_ok(),
        ensures
            post.free_ok(),
            post.index_ok(),
    {
        Self::lemma_unlink_facts(pre, post, x, k);
        reveal(OrderBook::free_ok);
        reveal(OrderBook::index_ok);
        reveal(OrderBook::resting_ok);
        assert forall|j: int| #![trigger post.free@[j]] 0 <= j < post.free@.len() implies {
            &&& (post.free@[j] as int) < post.arena@.len()
            &&& !post.resting@.contains(post.free@[j])
            &&& post.arena@[post.free@[j] as int].next == next_in(post.free@, j)
        } by {
            if j > 0 {
                assert(post.free@[j] == pre.free@[j - 1]);
                assert(!pre.resting@.contains(pre.free@[j - 1]));
            }
        }
        assert(post.free@.no_duplicates()) by {
            assert forall|a: int, b: int|
                0 <= a < post.free@.len() && 0 <= b < post.free@.len() && a != b implies post.free@[a]
                != post.free@[b] by {
                if a > 0 {
                    assert(!pre.resting@.contains(pre.free@[a - 1]));
                }
                if b > 0 {
                    assert(!pre.resting@.contains(pre.free@[b - 1]));
                }
            }
        }
        assert forall|id: OrderId| #[trigger] post.index@.contains_key(id) implies {
            &&& post.resting@.contains(post.index@[id])
            &&& post.arena@[post.index@[id] as int].id == id
        } by {
            assert(pre.index@.contains_key(id));
            let y = pre.index@[id];
            assert(pre.resting@.contains(y));
            if y != x && y != pre.arena@[x as int].prev && y != pre.arena@[x as int].next {
                assert(post.arena@[y as int] == pre.arena@[y as int]);
            }
        }
    }

    proof fn lemma_unlink_view(pre: OrderBook, post: OrderBook, x: u32, k: int)
        requires
            pre.wf_core(),
            pre.resting@.contains(x),
            Self::unlinked(pre, post, x, k),
        ensures
            post@ == remove_slot(pre@, x),
    {
        Self::lemma_unlink_facts(pre, post, x, k);
        let node = pre.arena@[x as int];
        let q = pre.queues@[side_ix(node.side)][node.price_idx as int];
        reveal(OrderBook::level_ok);
        reveal(OrderBook::resting_ok);
        lemma_remove_value_at(q, k);
        lemma_seq_without(q, k);
        assert forall|y: u32| #[trigger] post@.orders.contains_key(y) implies post@.orders[y] == pre@.orders.remove(x)[y] by {
            assert(pre.resting@.contains(y));
            assert(y != x);
            if y != node.prev && y != node.next {
                assert(post.arena@[y as int] == pre.arena@[y as int]);
            }
        }
        assert(post@.orders =~= pre@.orders.remove(x));
        assert(post@ =~= remove_slot(pre@, x));
    }

    /// Where the order in slot `x` sits and how it is linked.
    proof fn lemma_slot_facts(b: OrderBook, x: u32) -> (k: int)
        requires
            b.wf_core(),
            b.resting@.contains(x),
        ensures
            ({
                let node = b.arena@[x as int];
                let s = side_ix(node.side);
                let l = node.price_idx as int;
                let q = b.queues@[s][l];
                let lv = b.levels_of(s)[l];
                &&& (x as int) < b.arena@.len()
                &&& 0 <= s < 2
                &&& 0 <= l < b.n_levels
                &&& 0 <= k < q.len()
                &&& q[k] == x
                &&& node.prev == prev_in(q, k)
                &&& node.next == next_in(q, k)
                &&& node.prev != NIL ==> (node.prev as int) < b.arena@.len() && node.prev != x
                &&& node.next != NIL ==> (node.next as int) < b.arena@.len() && node.next != x
                &&& node.prev != NIL && node.next != NIL ==> node.prev != node.next
                &&& lv.head == head_of(q)
                &&& lv.tail == tail_of(q)
                &&& node.qty <= lv.total_qty
                &&& b.level_ok(s, l)
            }),
    {
        reveal(OrderBook::resting_ok);
        let node = b.arena@[x as int];
        let s = side_ix(node.side);
        let l = node.price_idx as int;
        let q = b.queues@[s][l];
        assert(b.resting@.contains(x));
        assert(b.level_ok(s, l));
        reveal(OrderBook::level_ok);
        let k = q.index_of(x);
        assert(q[k] == x);
        if k > 0 {
            assert(q[k - 1] == q[k - 1]);
        }
        if k + 1 < q.len() {
            assert(q[k + 1] == q[k + 1]);
        }
        lemma_queue_qty_remove(b@.orders, q, k);
        lemma_queue_qty_bounds(b@.orders, q.remove(k));
        k
    }

    /// After an unlink, everything but the cursors holds and the model
    /// lost the order in `x`.
    proof fn lemma_unlink(pre: OrderBook, post: OrderBook, x: u32, k: int)
        requires
            pre.wf_core(),
            pre.resting@.contains(x),
            Self::unlinked(pre, post, x, k),
            post.sizes_ok(),
        ensures
            post.wf_core(),
            post@ == remove_slot(pre@, x),
            post.heads_match(0),
            post.heads_match(1),
    {
        Self::lemma_unlink_levels(pre, post, x, k);
        Self::lemma_unlink_resting(pre, post, x, k);
        Self::lemma_unlink_free_index(pre, post, x, k);
        Self::lemma_unlink_view(pre, post, x, k);
        post.lemma_heads_match();
    }

    /// The cursors of a book whose queues changed at one level only: the
    /// cursor of the other side holds as it was, and so does the cursor of
    /// this side unless its level was emptied; then everything on the far
    /// side of it is empty.
    proof fn lemma_cursor_after_change(pre: OrderBook, post: OrderBook, s: int, l: int, e: Seq<u32>)
        requires
            pre.sizes_ok(),
            pre.cursors_ok(),
            post.sizes_ok(),
            post.n_levels == pre.n_levels,
            0 <= s < 2,
            0 <= l < pre.n_levels,
            pre.queues@[s][l].len() > 0,
            post.queues@ == pre.queues@.update(s, pre.queues@[s].update(l, e)),
        ensures
            s == 0 ==> post.queues@[1] == pre.queues@[1],
            s == 1 ==> post.queues@[0] == pre.queues@[0],
            s == 0 && !(e.len() == 0 && l == pre.best_bid) ==> pre.best_bid as int == last_nonempty_down(
                post.queues@[0],
                post.n_levels - 1,
            ),
            s == 0 && e.len() == 0 && l == pre.best_bid ==> forall|j: int|
                l - 1 < j < post.n_levels ==> #[trigger] post.queues@[0][j].len() == 0,
            s == 1 && !(e.len() == 0 && l == pre.best_ask) ==> pre.best_ask as int == first_nonempty_up(
                post.queues@[1],
                0,
            ),
            s == 1 && e.len() == 0 && l == pre.best_ask ==> forall|j: int|
                0 <= j < l + 1 ==> #[trigger] post.queues@[1][j].len() == 0,
    {
        if s == 0 {
            assert(post.queues@[1] == pre.queues@[1]);
            assert(post.queues@[0] == pre.queues@[0].update(l, e));
            lemma_down_props(pre.queues@[0], pre.n_levels - 1);
            lemma_down_update(pre.queues@[0], l, e);
        } else {
            assert(post.queues@[0] == pre.queues@[0]);
            assert(post.queues@[1] == pre.queues@[1].update(l, e));
            lemma_up_props(pre.queues@[1], 0);
            lemma_up_update(pre.queues@[1], l, e);
        }
    }

    /// The core invariant and the model do not depend on the cursors.
    proof fn lemma_core_ignores_cursors(a: OrderBook, b: OrderBook)
        requires
            a.wf_core(),
            b.arena == a.arena,
            b.free_head == a.free_head,
            b.bid_levels == a.bid_levels,
            b.ask_levels == a.ask_levels,
            b.n_levels == a.n_levels,
            b.index == a.index,
            b.queues == a.queues,
            b.free == a.free,
            b.resting == a.resting,
        ensures
            b.wf_core(),
            b@ == a@,
    {
        reveal(OrderBook::level_ok);
        reveal(OrderBook::resting_ok);
        reveal(OrderBook::free_ok);
        reveal(OrderBook::index_ok);
        assert forall|s: int, l: int| 0 <= s < 2 && 0 <= l < b.n_levels implies #[trigger] b.level_ok(s, l) by {
            assert(a.level_ok(s, l));
        }
        assert(b@ =~= a@);
    }

    /// Takes the order in slot `x` out of its level and puts the slot on
    /// the free list; the index forgets the order's id, and the cursor of
    /// its side moves on if this emptied the best level.
    fn remove_resting(&mut self, x: u32)
        requires
            old(self).wf(),
            old(self).resting@.contains(x),
        ensures
            final(self).wf(),
            final(self)@ == remove_slot(old(self)@, x),
    {
        let ghost k = Self::lemma_slot_facts(*self, x);
        let node = self.arena[x as usize];
        let l = node.price_idx as usize;
        let is_bid = match node.side {
            Side::Buy => true,
            Side::Sell => false,
        };
        let ghost s = side_ix(node.side);
        let ghost q = self.queues@[s][l as int];
        let mut lv = if is_bid { self.bid_levels[l] } else { self.ask_levels[l] };
        if node.prev != NIL {
            let p = node.prev as usize;
            let mut pn = self.arena[p];
            pn.next = node.next;
            self.arena.set(p, pn);
        } else {
            lv.head = node.next;
        }
        if node.next != NIL {
            let n = node.next as usize;
            let mut nn = self.arena[n];
            nn.prev = node.prev;
            self.arena.set(n, nn);
        } else {
            lv.tail = node.prev;
        }
        lv.total_qty = lv.total_qty - node.qty as u64;
        if is_bid {
            self.bid_levels.set(l, lv);
        } else {
            self.ask_levels.set(l, lv);
        }
        self.index.remove(&node.id);
        let mut fnode = self.arena[x as usize];
        fnode.next = self.free_head;
        self.arena.set(x as usize, fnode);
        self.free_head = x;
        let ghost q2 = seq_without(q, k);
        self.queues = Ghost(self.queues@.update(s, self.queues@[s].update(l as int, q2)));
        self.free = Ghost(seq![x] + self.free@);
        self.resting = Ghost(self.resting@.remove(x));
        proof {
            let pre = *old(self);
            assert forall|i: int|
                0 <= i < pre.arena@.len() && i != node.prev as int && i != node.next as int && i
                    != x as int implies #[trigger] self.arena@[i] == pre.arena@[i] by {}
            if is_bid {
                assert(self.levels_of(1 - s) == pre.levels_of(1 - s));
            } else {
                assert(self.levels_of(1 - s) == pre.levels_of(1 - s));
            }
            assert(Self::unlinked(pre, *self, x, k));
            Self::lemma_unlink(pre, *self, x, k);
            Self::lemma_cursor_after_change(pre, *self, s, l as int, q2);
            assert(self.levels_of(s)[l as int] == lv);
        }
        let ghost mid = *self;
        if lv.is_empty() {
            if is_bid {
                if l as i64 == self.best_bid {
                    self.best_bid = self.rescan_best_bid(l as i64 - 1);
                }
            } else {
                if l as i64 == self.best_ask {
                    self.best_ask = self.rescan_best_ask(l + 1);
                }
            }
        }
        proof {
            Self::lemma_core_ignores_cursors(mid, *self);
            lemma_up_props(self.queues@[1], 0);
            lemma_down_props(self.queues@[0], self.n_levels - 1);
            lemma_up_props(old(self).queues@[1], 0);
            lemma_down_props(old(self).queues@[0], self.n_levels - 1);
        }
    }

    /// `post` is `pre` with `by` taken off the order in slot `x`.
    spec fn reduced(pre: OrderBook, post: OrderBook, x: u32, by: Qty) -> bool {
        let node = pre.arena@[x as int];
        let s = side_ix(node.side);
        let l = node.price_idx as int;
        let lv = pre.levels_of(s)[l];
        &&& post.n_levels == pre.n_levels
        &&& post.arena@ == pre.arena@.update(x as int, OrderNode { qty: (node.qty - by) as u32, ..node })
        &&& post.free_head == pre.free_head
        &&& post.levels_of(s) == pre.levels_of(s).update(
            l,
            PriceLevel { total_qty: (lv.total_qty - by) as u64, ..lv },
        )
        &&& post.levels_of(1 - s) == pre.levels_of(1 - s)
        &&& post.index@ == pre.index@
        &&& post.queues@ == pre.queues@
        &&& post.free@ == pre.free@
        &&& post.resting@ == pre.resting@
        &&& post.best_bid == pre.best_bid
        &&& post.best_ask == pre.best_ask
    }

    #[verifier::spinoff_prover]
    proof fn lemma_reduce(pre: OrderBook, post: OrderBook, x: u32, by: Qty)
        requires
            pre.wf(),
            pre.resting@.contains(x),
            0 < by < pre.arena@[x as int].qty,
            Self::reduced(pre, post, x, by),
        ensures
            post.wf(),
            post@ == reduce_slot(pre@, x, by),
    {
        let k2 = Self::lemma_slot_facts(pre, x);
        let node = pre.arena@[x as int];
        let s = side_ix(node.side);
        let l = node.price_idx as int;
        let q = pre.queues@[s][l];
        reveal(OrderBook::resting_ok);
        reveal(OrderBook::free_ok);
        reveal(OrderBook::index_ok);
        assert(post@.orders =~= reduce_slot(pre@, x, by).orders);
        assert(post@ =~= reduce_slot(pre@, x, by));
        assert forall|s2: int, l2: int| 0 <= s2 < 2 && 0 <= l2 < post.n_levels implies #[trigger] post.level_ok(s2, l2) by {
            assert(pre.level_ok(s2, l2));
            reveal(OrderBook::level_ok);
            let q3 = pre.queues@[s2][l2];
            if s2 != s || l2 != l {
                assert forall|j: int| 0 <= j < q3.len() implies {
                    &&& #[trigger] post.arena@[q3[j] as int] == pre.arena@[q3[j] as int]
                    &&& post.resting@.contains(q3[j])
                } by {
                    assert(q3[j] == q3[j]);
                }
                Self::lemma_level_frame(pre, post, s2, l2);
            } else {
                let r = q.remove(k2);
                assert forall|j: int| 0 <= j < r.len() implies #[trigger] pre@.orders[r[j]].qty == post@.orders[r[j]].qty by {
                    q.remove_ensures(k2);
                    if j < k2 {
                        assert(r[j] == q[j]);
                    } else {
                        assert(r[j] == q[j + 1]);
                    }
                }
                lemma_queue_qty_remove(pre@.orders, q, k2);
                lemma_queue_qty_remove(post@.orders, q, k2);
                lemma_queue_qty_frame(pre@.orders, post@.orders, r);
                assert(pre@.orders[x].qty == node.qty);
                assert(post@.orders[x].qty == node.qty - by);
                assert forall|j: int| #![trigger q[j]] 0 <= j < q.len() implies {
                    &&& post.resting@.contains(q[j])
                    &&& (q[j] as int) < post.arena@.len()
                    &&& post.arena@[q[j] as int].prev == prev_in(q, j)
                    &&& post.arena@[q[j] as int].next == next_in(q, j)
                    &&& side_ix(post.arena@[q[j] as int].side) == s
                    &&& post.arena@[q[j] as int].price_idx as int == l
                } by {
                    assert(q[j] == q[j]);
                }
            }
        }
        assert forall|y: u32| #[trigger] post.resting@.contains(y) implies {
            &&& (y as int) < post.arena@.len()
            &&& post.arena@[y as int].qty > 0
            &&& (post.arena@[y as int].price_idx as int) < post.n_levels
            &&& post.queues@[side_ix(post.arena@[y as int].side)][post.arena@[y as int].price_idx as int].contains(y)
        } by {
            assert(pre.resting@.contains(y));
        }
        assert forall|j: int| #![trigger post.free@[j]] 0 <= j < post.free@.len() implies {
            &&& (post.free@[j] as int) < post.arena@.len()
            &&& !post.resting@.contains(post.free@[j])
            &&& post.arena@[post.free@[j] as int].next == next_in(post.free@, j)
        } by {
            assert(!pre.resting@.contains(pre.free@[j]));
        }
        assert forall|id: OrderId| #[trigger] post.index@.contains_key(id) implies {
            &&& post.resting@.contains(post.index@[id])
            &&& post.arena@[post.index@[id] as int].id == id
        } by {
            assert(pre.index@.contains_key(id));
        }
    }

    /// Takes `by` off the order in slot `x`, which keeps a positive quantity.
    fn reduce_resting(&mut self, x: u32, by: Qty)
        requires
            old(self).wf(),
            old(self).resting@.contains(x),
            0 < by < old(self)@.orders[x].qty,
        ensures
            final(self).wf(),
            final(self)@ == reduce_slot(old(self)@, x, by),
    {
        let ghost k = Self::lemma_slot_facts(*self, x);
        let node = self.arena[x as usize];
        let l = node.price_idx as usize;
        let mut n2 = node;
        n2.qty = node.qty - by;
        self.arena.set(x as usize, n2);
        match node.side {
            Side::Buy => {
                let mut lv = self.bid_levels[l];
                lv.total_qty = lv.total_qty - by as u64;
                self.bid_levels.set(l, lv);
            },
            Side::Sell => {
                let mut lv = self.ask_levels[l];
                lv.total_qty = lv.total_qty - by as u64;
                self.ask_levels.set(l, lv);
            },
        }
        proof {
            let pre = *old(self);
            assert(Self::reduced(pre, *self, x, by));
            Self::lemma_reduce(pre, *self, x, by);
        }
    }

    /// `post` is `pre` with a new order in the first free slot, appended to
    /// the queue of its side and level.
    spec fn rested(pre: OrderBook, post: OrderBook, id: OrderId, side: Side, price_idx: TickIdx, qty: Qty) -> bool {
        let x = pre.free@[0];
        let s = side_ix(side);
        let l = price_idx as int;
        let q = pre.queues@[s][l];
        let lv = pre.levels_of(s)[l];
        &&& pre.free@.len() > 0
        &&& post.n_levels == pre.n_levels
        &&& post.arena@.len() == pre.arena@.len()
        &&& forall|i: int|
            0 <= i < pre.arena@.len() && i != x as int && i != lv.tail as int
                ==> #[trigger] post.arena@[i] == pre.arena@[i]
        &&& lv.tail != NIL ==> post.arena@[lv.tail as int] == (OrderNode {
            next: x,
            ..pre.arena@[lv.tail as int]
        })
        &&& post.arena@[x as int] == (OrderNode { id, qty, price_idx, prev: lv.tail, next: NIL, side })
        &&& post.free_head == pre.arena@[x as int].next
        &&& post.levels_of(s) == pre.levels_of(s).update(
            l,
            PriceLevel {
                head: if lv.tail == NIL { x } else { lv.head },
                tail: x,
                total_qty: (lv.total_qty + qty) as u64,
            },
        )
        &&& post.levels_of(1 - s) == pre.levels_of(1 - s)
        &&& post.index@ == pre.index@.insert(id, x)
        &&& post.queues@ == pre.queues@.update(s, pre.queues@[s].update(l, q.push(x)))
        &&& post.free@ == pre.free@.drop_first()
        &&& post.resting@ == pre.resting@.insert(x)
    }

    /// The first free slot, and the tail of the level an order will join.
    proof fn lemma_rest_facts(pre: OrderBook, side: Side, price_idx: TickIdx, qty: Qty)
        requires
            pre.wf_core(),
            pre.free@.len() > 0,
            (price_idx as int) < pre.n_levels,
        ensures
            ({
                let x = pre.free@[0];
                let s = side_ix(side);
                let l = price_idx as int;
                let q = pre.queues@[s][l];
                let lv = pre.levels_of(s)[l];
                &&& pre.level_ok(s, l)
                &&& (x as int) < pre.arena@.len()
                &&& !pre.resting@.contains(x)
                &&& !q.contains(x)
                &&& pre.free_head == x
                &&& pre.arena@[x as int].next == head_of(pre.free@.drop_first())
                &&& lv.tail == tail_of(q)
                &&& lv.head == head_of(q)
                &&& (lv.tail == NIL) == (q.len() == 0)
                &&& lv.tail != NIL ==> (lv.tail as int) < pre.arena@.len() && lv.tail != x
                    && pre.resting@.contains(lv.tail) && side_ix(pre.arena@[lv.tail as int].side) == s
                    && pre.arena@[lv.tail as int].price_idx as int == l
                &&& lv.total_qty + qty <= u64::MAX
            }),
    {
        reveal(OrderBook::free_ok);
        let x = pre.free@[0];
        let s = side_ix(side);
        let l = price_idx as int;
        let q = pre.queues@[s][l];
        assert(pre.level_ok(s, l));
        reveal(OrderBook::level_ok);
        assert(!pre.resting@.contains(x));
        if q.len() > 0 {
            assert(q[q.len() - 1] == q[q.len() - 1]);
            assert(q[0] == q[0]);
        }
        if pre.free@.len() > 1 {
            assert(pre.free@.drop_first()[0] == pre.free@[1]);
        }
        assert(!q.contains(x)) by {
            if q.contains(x) {
                let j = choose|j: int| 0 <= j < q.len() && q[j] == x;
                assert(q[j] == q[j]);
            }
        }
        let q2 = q.push(x);
        assert forall|j: int| 0 <= j < q2.len() implies #[trigger] q2[j] < pre.arena@.len() by {
            if j < q.len() {
                assert(q[j] == q[j]);
            }
        }
        assert(q2.no_duplicates());
        lemma_distinct_below(q2, pre.arena@.len() as u32);
        lemma_queue_qty_bounds(pre@.orders, q);
        let n = q.len();
        assert(n * 0xFFFF_FFFFint + 0xFFFF_FFFFint <= u64::MAX) by (nonlinear_arith)
            requires
                n + 1 <= 0xFFFF_FFFEint,
        ;
    }

    #[verifier::spinoff_prover]
    proof fn lemma_rest_levels(pre: OrderBook, post: OrderBook, id: OrderId, side: Side, price_idx: TickIdx, qty: Qty)
        requires
            pre.wf_core(),
            (price_idx as int) < pre.n_levels,
            qty > 0,
            Self::rested(pre, post, id, side, price_idx, qty),
            post.sizes_ok(),
        ensures
            post.levels_ok(),
    {
        Self::lemma_rest_facts(pre, side, price_idx, qty);
        let x = pre.free@[0];
        let s = side_ix(side);
        let l = price_idx as int;
        let q = pre.queues@[s][l];
        let lv = pre.levels_of(s)[l];
        assert forall|s2: int, l2: int| 0 <= s2 < 2 && 0 <= l2 < post.n_levels implies #[trigger] post.level_ok(s2, l2) by {
            assert(pre.level_ok(s2, l2));
            reveal(OrderBook::level_ok);
            let q3 = pre.queues@[s2][l2];
            if s2 != s || l2 != l {
                assert forall|j: int| 0 <= j < q3.len() implies {
                    &&& #[trigger] post.arena@[q3[j] as int] == pre.arena@[q3[j] as int]
                    &&& post.resting@.contains(q3[j])
                } by {
                    assert(q3[j] == q3[j]);
                }
                if s2 == s {
                    assert(post.queues@[s2][l2] == q3);
                    assert(post.levels_of(s2)[l2] == pre.levels_of(s2)[l2]);
                } else {
                    assert(post.queues@[s2] == pre.queues@[s2]);
                    assert(post.levels_of(s2) == pre.levels_of(s2));
                }
                Self::lemma_level_frame(pre, post, s2, l2);
            } else {
                let q2 = q.push(x);
                assert(post.queues@[s][l] == q2);
                assert forall|j: int| 0 <= j < q.len() implies #[trigger] pre@.orders[q[j]].qty == post@.orders[q[j]].qty by {
                    assert(q[j] == q[j]);
                }
                lemma_queue_qty_frame(pre@.orders, post@.orders, q);
                lemma_queue_qty_push(post@.orders, q, x);
                assert forall|j: int| #![trigger q2[j]] 0 <= j < q2.len() implies {
                    &&& post.resting@.contains(q2[j])
                    &&& (q2[j] as int) < post.arena@.len()
                    &&& post.arena@[q2[j] as int].prev == prev_in(q2, j)
                    &&& post.arena@[q2[j] as int].next == next_in(q2, j)
                    &&& side_ix(post.arena@[q2[j] as int].side) == s
                    &&& post.arena@[q2[j] as int].price_idx as int == l
                } by {
                    if j < q.len() {
                        assert(q2[j] == q[j]);
                        assert(q[j] == q[j]);
                        if j > 0 {
                            assert(q[j - 1] == q[j - 1]);
                        }
                        if j + 1 < q.len() {
                            assert(q[j + 1] == q[j + 1]);
                            assert(q[j] != lv.tail);
                        }
                    }
                }
                assert(q2.no_duplicates());
            }
        }
    }

    #[verifier::spinoff_prover]
    proof fn lemma_rest_others(pre: OrderBook, post: OrderBook, id: OrderId, side: Side, price_idx: TickIdx, qty: Qty)
        requires
            pre.wf_core(),
            (price_idx as int) < pre.n_levels,
            qty > 0,
            Self::rested(pre, post, id, side, price_idx, qty),
            post.sizes_ok(),
        ensures
            post.resting_ok(),
            post.free_ok(),
            post.index_ok(),
            post@ == rest_slot(pre@, id, side, price_idx, qty),
    {
        Self::lemma_rest_facts(pre, side, price_idx, qty);
        let x = pre.free@[0];
        let s = side_ix(side);
        let l = price_idx as int;
        let q = pre.queues@[s][l];
        let lv = pre.levels_of(s)[l];
        reveal(OrderBook::resting_ok);
        reveal(OrderBook::free_ok);
        reveal(OrderBook::index_ok);
        assert forall|y: u32| #[trigger] post.resting@.contains(y) implies {
            &&& (y as int) < post.arena@.len()
            &&& post.arena@[y as int].qty > 0
            &&& (post.arena@[y as int].price_idx as int) < post.n_levels
            &&& post.queues@[side_ix(post.arena@[y as int].side)][post.arena@[y as int].price_idx as int].contains(y)
        } by {
            if y == x {
                assert(q.push(x)[q.len() as int] == x);
            } else {
                assert(pre.resting@.contains(y));
                if y != lv.tail {
                    assert(post.arena@[y as int] == pre.arena@[y as int]);
                }
                let s3 = side_ix(pre.arena@[y as int].side);
                let l3 = pre.arena@[y as int].price_idx as int;
                let q3 = pre.queues@[s3][l3];
                let j = choose|j: int| 0 <= j < q3.len() && q3[j] == y;
                if s3 == s && l3 == l {
                    assert(q.push(x)[j] == y);
                } else {
                    assert(post.queues@[s3][l3] == q3);
                }
            }
        }
        assert forall|j: int| #![trigger post.free@[j]] 0 <= j < post.free@.len() implies {
            &&& (post.free@[j] as int) < post.arena@.len()
            &&& !post.resting@.contains(post.free@[j])
            &&& post.arena@[post.free@[j] as int].next == next_in(post.free@, j)
        } by {
            assert(post.free@[j] == pre.free@[j + 1]);
            assert(pre.free@[j + 1] == pre.free@[j + 1]);
            assert(!pre.resting@.contains(pre.free@[j + 1]));
            if j + 1 < post.free@.len() {
                assert(post.free@[j + 1] == pre.free@[j + 2]);
            }
        }
        assert forall|id2: OrderId| #[trigger] post.index@.contains_key(id2) implies {
            &&& post.resting@.contains(post.index@[id2])
            &&& post.arena@[post.index@[id2] as int].id == id2
        } by {
            if id2 != id {
                assert(pre.index@.contains_key(id2));
                let y = pre.index@[id2];
                if y != lv.tail {
                    assert(post.arena@[y as int] == pre.arena@[y as int]);
                }
            }
        }
        assert forall|y: u32| #[trigger] post@.orders.contains_key(y) implies post@.orders[y] == rest_slot(pre@, id, side, price_idx, qty).orders[y] by {
            if y != x {
                assert(pre.resting@.contains(y));
                if y != lv.tail {
                    assert(post.arena@[y as int] == pre.arena@[y as int]);
                }
            }
        }
        assert(post@.orders =~= rest_slot(pre@, id, side, price_idx, qty).orders);
        assert(post@ =~= rest_slot(pre@, id, side, price_idx, qty));
    }

    /// Rests a new order in the first free slot, at the back of its level's
    /// queue, moves the cursor of its side if the level is better, and
    /// indexes its id.
    fn rest_new(&mut self, id: OrderId, side: Side, price_idx: TickIdx, qty: Qty)
        requires
            old(self).wf(),
            old(self)@.free.len() > 0,
            (price_idx as int) < old(self)@.n_levels,
            qty > 0,
            side == Side::Buy ==> price_idx < old(self)@.best_ask(),
            side == Side::Sell ==> price_idx > old(self)@.best_bid(),
        ensures
            final(self).wf(),
            final(self)@ == rest_slot(old(self)@, id, side, price_idx, qty),
    {
        proof {
            Self::lemma_rest_facts(*self, side, price_idx, qty);
        }
        let x = self.free_head;
        self.free_head = self.arena[x as usize].next;
        let l = price_idx as usize;
        let is_bid = match side {
            Side::Buy => true,
            Side::Sell => false,
        };
        let mut lv = if is_bid { self.bid_levels[l] } else { self.ask_levels[l] };
        self.arena.set(x as usize, OrderNode { id, qty, price_idx, prev: lv.tail, next: NIL, side });
        if lv.tail != NIL {
            let t = lv.tail as usize;
            let mut tn = self.arena[t];
            tn.next = x;
            self.arena.set(t, tn);
        } else {
            lv.head = x;
        }
        lv.tail = x;
        lv.total_qty = lv.total_qty + qty as u64;
        if is_bid {
            self.bid_levels.set(l, lv);
        } else {
            self.ask_levels.set(l, lv);
        }
        self.index.insert(id, x);
        let ghost s = side_ix(side);
        let ghost q2 = self.queues@[s][l as int].push(x);
        self.queues = Ghost(self.queues@.update(s, self.queues@[s].update(l as int, q2)));
        self.free = Ghost(self.free@.drop_first());
        self.resting = Ghost(self.resting@.insert(x));
        proof {
            let pre = *old(self);
            assert forall|i: int|
                0 <= i < pre.arena@.len() && i != x as int && i != pre.levels_of(s)[l as int].tail as int
                    implies #[trigger] self.arena@[i] == pre.arena@[i] by {}
            assert(self.levels_of(1 - s) == pre.levels_of(1 - s));
            assert(Self::rested(pre, *self, id, side, price_idx, qty));
            Self::lemma_rest_levels(pre, *self, id, side, price_idx, qty);
            Self::lemma_rest_others(pre, *self, id, side, price_idx, qty);
            if s == 0 {
                assert(self.queues@[1] == pre.queues@[1]);
                assert(self.queues@[0] == pre.queues@[0].update(l as int, q2));
                lemma_down_update(pre.queues@[0], l as int, q2);
            } else {
                assert(self.queues@[0] == pre.queues@[0]);
                assert(self.queues@[1] == pre.queues@[1].update(l as int, q2));
                lemma_up_update(pre.queues@[1], l as int, q2);
            }
        }
        let ghost mid = *self;
        if is_bid {
            if (l as i64) > self.best_bid {
                self.best_bid = l as i64;
            }
        } else {
            if (l as i64) < self.best_ask {
                self.best_ask = l as i64;
            }
        }
        proof {
            Self::lemma_core_ignores_cursors(mid, *self);
        }
    }

    /// Builds an empty book with `n_levels` price levels per side and an
    /// arena of `capacity` order slots, all free.
    pub fn new(n_levels: usize, capacity: usize) -> (book: Self)
        requires
            n_levels > 0,
            capacity > 0,
            capacity < NIL,
            n_levels <= i64::MAX,
            capacity * 2 <= usize::MAX,
        ensures
            book.wf(),
            book@ == empty_book(n_levels as nat, capacity as nat),
    {
        let mut arena: Vec<OrderNode> = Vec::with_capacity(capacity);
        let mut i: usize = 0;
        while i < capacity
            invariant
                i <= capacity < NIL,
                arena@.len() == i,
                forall|j: int|
                    0 <= j < i ==> #[trigger] arena@[j].next == (if j + 1 < capacity {
                        (j + 1) as u32
                    } else {
                        NIL
                    }),
            decreases capacity - i,
        {
            let next = if i + 1 < capacity { (i + 1) as u32 } else { NIL };
            arena.push(OrderNode { id: 0, qty: 0, price_idx: 0, prev: NIL, next, side: Side::Buy });
            i += 1;
        }
        let mut bid_levels: Vec<PriceLevel> = Vec::with_capacity(n_levels);
        let mut ask_levels: Vec<PriceLevel> = Vec::with_capacity(n_levels);
        let mut l: usize = 0;
        while l < n_levels
            invariant
                l <= n_levels,
                bid_levels@.len() == l,
                ask_levels@.len() == l,
                forall|j: int|
                    0 <= j < l ==> #[trigger] bid_levels@[j] == (PriceLevel { head: NIL, tail: NIL, total_qty: 0 }),
                forall|j: int|
                    0 <= j < l ==> #[trigger] ask_levels@[j] == (PriceLevel { head: NIL, tail: NIL, total_qty: 0 }),
            decreases n_levels - l,
        {
            bid_levels.push(PriceLevel { head: NIL, tail: NIL, total_qty: 0 });
            ask_levels.push(PriceLevel { head: NIL, tail: NIL, total_qty: 0 });
            l += 1;
        }
        let ghost v = empty_book(n_levels as nat, capacity as nat);
        let book = OrderBook {
            arena,
            free_head: 0,
            bid_levels,
            ask_levels,
            n_levels,
            index: HashMap::with_capacity(capacity * 2),
            best_bid: -1,
            best_ask: n_levels as i64,
            queues: Ghost(v.queues),
            free: Ghost(v.free),
            resting: Ghost(Set::empty()),
        };
        proof {
            reveal(OrderBook::level_ok);
            reveal(OrderBook::resting_ok);
            reveal(OrderBook::free_ok);
            reveal(OrderBook::index_ok);
            assert forall|s: int, l: int| 0 <= s < 2 && 0 <= l < book.n_levels implies #[trigger] book.level_ok(s, l) by {
                assert(book.queues@[s][l] == Seq::<u32>::empty());
            }
            assert(book.free@.no_duplicates()) by {
                assert forall|a: int, b: int| 0 <= a < book.free@.len() && 0 <= b < book.free@.len() && a != b
                    implies book.free@[a] != book.free@[b] by {}
            }
            assert(book.free_ok());
            lemma_up_char(book.queues@[1], 0, n_levels as int);
            lemma_down_char(book.queues@[0], n_levels - 1, -1);
            assert(book@.orders =~= Map::<u32, RestingOrder>::empty());
            assert(book@ =~= v);
        }
        book
    }
}

impl OrderBook {
    /// A book that keeps its invariant has a well-formed model that never
    /// crosses.
    pub proof fn lemma_wf_view(&self)
        requires
            self.wf(),
        ensures
            view_wf(self@),
            self@.uncrossed(),
    {
        reveal(OrderBook::level_ok);
        reveal(OrderBook::resting_ok);
        reveal(OrderBook::free_ok);
        reveal(OrderBook::index_ok);
        let v = self@;
        assert forall|s: int, l: int, k: int|
            0 <= s < 2 && 0 <= l < v.n_levels && 0 <= k < v.queues[s][l].len() implies {
                &&& v.orders.contains_key(#[trigger] v.queues[s][l][k])
                &&& side_ix(v.orders[v.queues[s][l][k]].side) == s
                &&& v.orders[v.queues[s][l][k]].price_idx as int == l
            } by {
            assert(self.level_ok(s, l));
        }
        assert forall|s: int, l: int| 0 <= s < 2 && 0 <= l < v.n_levels implies (#[trigger] v.queues[s][l]).no_duplicates() by {
            assert(self.level_ok(s, l));
        }
        assert forall|x: u32| #[trigger] v.orders.contains_key(x) implies {
            &&& v.orders[x].qty > 0
            &&& (v.orders[x].price_idx as int) < v.n_levels
            &&& v.queues[side_ix(v.orders[x].side)][v.orders[x].price_idx as int].contains(x)
        } by {
            assert(self.resting@.contains(x));
        }
        assert forall|id: OrderId| #[trigger] v.index.contains_key(id) implies v.orders.contains_key(v.index[id])
            && v.orders[v.index[id]].id == id by {
            assert(self.index@.contains_key(id));
        }
        assert forall|k: int| 0 <= k < v.free.len() implies !v.orders.contains_key(#[trigger] v.free[k]) by {
            assert(self.free@[k] == self.free@[k]);
        }
    }

    /// The head of a non-empty level: the oldest order there.
    proof fn lemma_head_facts(&self, s: int, l: int)
        requires
            self.wf_core(),
            0 <= s < 2,
            0 <= l < self.n_levels,
            self.queues@[s][l].len() > 0,
        ensures
            ({
                let h = self.queues@[s][l][0];
                &&& self.levels_of(s)[l].head == h
                &&& self.resting@.contains(h)
                &&& (h as int) < self.arena@.len()
                &&& self.arena@[h as int].qty > 0
                &&& self@.orders[h] == node_order(self.arena@[h as int])
            }),
    {
        assert(self.level_ok(s, l));
        reveal(OrderBook::level_ok);
        reveal(OrderBook::resting_ok);
        let q = self.queues@[s][l];
        assert(q[0] == q[0]);
    }

    /// A level's kept total is the total of its queue.
    proof fn lemma_level_total(&self, s: int, l: int)
        requires
            self.wf_core(),
            0 <= s < 2,
            0 <= l < self.n_levels,
        ensures
            self.levels_of(s)[l].total_qty == self@.level_total(s, l),
    {
        assert(self.level_ok(s, l));
        reveal(OrderBook::level_ok);
    }

    /// The best bid level, if any bid rests.
    pub fn best_bid(&self) -> (r: Option<TickIdx>)
        requires
            self.wf(),
        ensures
            r == (if self@.best_bid() >= 0 { Some(self@.best_bid() as TickIdx) } else { None }),
    {
        if self.best_bid >= 0 {
            Some(self.best_bid as TickIdx)
        } else {
            None
        }
    }

    /// The best ask level, if any ask rests.
    pub fn best_ask(&self) -> (r: Option<TickIdx>)
        requires
            self.wf(),
        ensures
            r == (if self@.best_ask() < self@.n_levels {
                Some(self@.best_ask() as TickIdx)
            } else {
                None
            }),
    {
        proof {
            lemma_up_props(self.queues@[1], 0);
        }
        if (self.best_ask as usize) < self.n_levels {
            Some(self.best_ask as TickIdx)
        } else {
            None
        }
    }

    /// The total quantity resting on one side at one level.
    pub fn level_qty(&self, side: Side, price_idx: TickIdx) -> (r: u64)
        requires
            self.wf(),
            (price_idx as int) < self@.n_levels,
        ensures
            r == self@.level_total(side_ix(side), price_idx as int),
    {
        proof {
            self.lemma_level_total(side_ix(side), price_idx as int);
        }
        match side {
            Side::Buy => self.bid_levels[price_idx as usize].total_qty,
            Side::Sell => self.ask_levels[price_idx as usize].total_qty,
        }
    }

    /// Read-only depth snapshot: up to `depth` non-empty levels of one side
    /// with their total quantity, best price first (bids falling, asks
    /// rising).
    pub fn top_levels(&self, side: Side, depth: usize) -> (out: Vec<(TickIdx, u64)>)
        requires
            self.wf(),
        ensures
            out@ == top_levels_spec(self@, side, depth as nat),
    {
        let mut out: Vec<(TickIdx, u64)> = Vec::with_capacity(depth);
        let ghost v = self@;
        proof {
            self.lemma_heads_match();
        }
        match side {
            Side::Buy => {
                let mut i = self.best_bid;
                proof {
                    lemma_down_props(self.queues@[0], self.n_levels - 1);
                    lemma_levels_down_skip(v, 0, self.n_levels - 1, i as int, depth as nat);
                }
                while i >= 0 && out.len() < depth
                    invariant
                        self.wf(),
                        v == self@,
                        -1 <= i < self.n_levels,
                        out@.len() <= depth,
                        out@ + levels_down(v, 0, i as int, (depth - out@.len()) as nat) == levels_down(
                            v,
                            0,
                            self.n_levels - 1,
                            depth as nat,
                        ),
                    decreases i + 1,
                {
                    let lvl = self.bid_levels[i as usize];
                    proof {
                        self.lemma_level_total(0, i as int);
                        self.lemma_heads_match();
                        assert(self.levels_of(0)[i as int] == lvl);
                    }
                    if !lvl.is_empty() {
                        let ghost before = out@;
                        out.push((i as TickIdx, lvl.total_qty));
                        proof {
                            assert(out@ + levels_down(v, 0, i - 1, (depth - out@.len()) as nat)
                                =~= before + levels_down(v, 0, i as int, (depth - before.len()) as nat));
                        }
                    }
                    i -= 1;
                }
            },
            Side::Sell => {
                let mut i = self.best_ask;
                proof {
                    lemma_up_props(self.queues@[1], 0);
                    lemma_levels_up_skip(v, 1, 0, i as int, depth as nat);
                }
                while (i as usize) < self.n_levels && out.len() < depth
                    invariant
                        self.wf(),
                        v == self@,
                        0 <= i <= self.n_levels,
                        out@.len() <= depth,
                        out@ + levels_up(v, 1, i as int, (depth - out@.len()) as nat) == levels_up(
                            v,
                            1,
                            0,
                            depth as nat,
                        ),
                    decreases self.n_levels - i,
                {
                    let lvl = self.ask_levels[i as usize];
                    proof {
                        self.lemma_level_total(1, i as int);
                        self.lemma_heads_match();
                        assert(self.levels_of(1)[i as int] == lvl);
                    }
                    if !lvl.is_empty() {
                        let ghost before = out@;
                        out.push((i as TickIdx, lvl.total_qty));
                        proof {
                            assert(out@ + levels_up(v, 1, i + 1, (depth - out@.len()) as nat)
                                =~= before + levels_up(v, 1, i as int, (depth - before.len()) as nat));
                        }
                    }
                    i += 1;
                }
            },
        }
        proof {
            assert(out@ =~= top_levels_spec(v, side, depth as nat));
        }
        out
    }

    /// Matching core.  `limit_price == None` is a market order, which
    /// trades through the whole opposite side if it has to.
    fn match_against(
        &mut self,
        taker_id: OrderId,
        taker_side: Side,
        limit_price: Option<TickIdx>,
        qty: Qty,
        trades: &mut Vec<Trade>,
    ) -> (r: Qty)
        requires
            old(self).wf(),
        ensures
            final(self).wf(),
            final(self)@ == match_orders(old(self)@, taker_id, taker_side, limit_price, qty).0,
            final(trades)@ == old(trades)@ + match_orders(old(self)@, taker_id, taker_side, limit_price, qty).1,
            r == match_orders(old(self)@, taker_id, taker_side, limit_price, qty).2,
            r > 0 ==> !can_match(final(self)@, taker_side, limit_price),
            final(self)@.n_levels == old(self)@.n_levels,
    {
        let ghost m = match_orders(self@, taker_id, taker_side, limit_price, qty);
        let ghost n0 = self@.n_levels;
        let ghost trades0 = trades@;
        let mut remaining = qty;
        while remaining > 0
            invariant
                self.wf(),
                self@.n_levels == n0,
                match_orders(self@, taker_id, taker_side, limit_price, remaining).0 == m.0,
                match_orders(self@, taker_id, taker_side, limit_price, remaining).2 == m.2,
                trades0 + m.1 == trades@ + match_orders(self@, taker_id, taker_side, limit_price, remaining).1,
            ensures
                self.wf(),
                self@.n_levels == n0,
                match_orders(self@, taker_id, taker_side, limit_price, remaining).0 == m.0,
                match_orders(self@, taker_id, taker_side, limit_price, remaining).2 == m.2,
                trades0 + m.1 == trades@ + match_orders(self@, taker_id, taker_side, limit_price, remaining).1,
                remaining > 0 ==> !can_match(self@, taker_side, limit_price),
            decreases remaining,
        {
            proof {
                lemma_up_props(self.queues@[1], 0);
                lemma_down_props(self.queues@[0], self.n_levels - 1);
            }
            let lvl: usize;
            match taker_side {
                Side::Buy => {
                    let ask = self.best_ask;
                    if ask as usize >= self.n_levels {
                        break;
                    }
                    if let Some(p) = limit_price {
                        if (p as i64) < ask {
                            break;
                        }
                    }
                    lvl = ask as usize;
                },
                Side::Sell => {
                    let bid = self.best_bid;
                    if bid < 0 {
                        break;
                    }
                    if let Some(p) = limit_price {
                        if (p as i64) > bid {
                            break;
                        }
                    }
                    lvl = bid as usize;
                },
            }
            let ghost v = self@;
            let ghost o = opposite_ix(taker_side);
            proof {
                assert(can_match(v, taker_side, limit_price));
                assert(lvl as int == best_opposite(v, taker_side));
                self.lemma_head_facts(o, lvl as int);
            }
            let head = match taker_side {
                Side::Buy => self.ask_levels[lvl].head,
                Side::Sell => self.bid_levels[lvl].head,
            };
            let maker = self.arena[head as usize];
            let traded = if remaining < maker.qty { remaining } else { maker.qty };
            let t = Trade { maker_id: maker.id, taker_id, price_idx: lvl as TickIdx, qty: traded };
            trades.push(t);
            remaining = remaining - traded;
            proof {
                assert(head == best_maker(v, taker_side));
            }
            if traded == maker.qty {
                self.remove_resting(head);
            } else {
                self.reduce_resting(head, traded);
            }
            proof {
                let r = match_orders(self@, taker_id, taker_side, limit_price, remaining);
                assert(match_orders(v, taker_id, taker_side, limit_price, (remaining + traded) as u32)
                    == (r.0, seq![t] + r.1, r.2));
                assert(trades@ + r.1 =~= (trades@.drop_last()) + (seq![t] + r.1));
            }
        }
        remaining
    }

    /// The number of price levels a side has.
    pub fn n_levels(&self) -> (r: usize)
        ensures
            r == self@.n_levels,
    {
        self.n_levels
    }

    /// Whether every arena slot holds a resting order.
    pub fn is_full(&self) -> (r: bool)
        requires
            self.wf(),
        ensures
            r == (self@.free.len() == 0),
    {
        proof {
            reveal(OrderBook::free_ok);
            if self.free@.len() > 0 {
                assert(self.free@[0] == self.free@[0]);
            }
        }
        self.free_head == NIL
    }

    /// Whether a limit order finds a free arena slot for whatever it leaves
    /// resting: it rests nothing, or a slot is free after its matching.
    /// The one case without room is a full arena and an order that cannot
    /// trade at all.
    pub fn room_for_limit(&self, id: OrderId, side: Side, price_idx: TickIdx, qty: Qty) -> (r: bool)
        requires
            self.wf(),
        ensures
            r == (match_orders(self@, id, side, Some(price_idx), qty).2 > 0 ==> match_orders(
                self@,
                id,
                side,
                Some(price_idx),
                qty,
            ).0.free.len() > 0),
    {
        let trades_now = match side {
            Side::Buy => match self.best_ask() {
                Some(a) => a <= price_idx,
                None => false,
            },
            Side::Sell => match self.best_bid() {
                Some(b) => price_idx <= b,
                None => false,
            },
        };
        proof {
            self.lemma_wf_view();
            let v = self@;
            lemma_up_props(v.queues[1], 0);
            lemma_down_props(v.queues[0], v.n_levels - 1);
            if v.best_ask() < v.n_levels {
                let x = v.queues[1][v.best_ask()][0];
                assert(v.orders[x].price_idx as int == v.best_ask());
            }
            if v.best_bid() >= 0 {
                let x = v.queues[0][v.best_bid()][0];
                assert(v.orders[x].price_idx as int == v.best_bid());
            }
            assert(trades_now == can_match(v, side, Some(price_idx)));
            crate::order_book::laws::matching_never_takes_slots(v, id, side, Some(price_idx), qty);
            if trades_now {
                crate::order_book::laws::best_maker_rests(v, side, Some(price_idx));
            }
        }
        !(self.is_full() && qty > 0 && !trades_now)
    }

    /// Limit order: match first, then rest whatever is left.  Trades are
    /// appended to the caller's buffer.  Returns the quantity that now
    /// rests in the book (0 when fully filled).
    pub fn limit_order(
        &mut self,
        id: OrderId,
        side: Side,
        price_idx: TickIdx,
        qty: Qty,
        trades: &mut Vec<Trade>,
    ) -> (r: Qty)
        requires
            old(self).wf(),
            (price_idx as int) < old(self)@.n_levels,
            match_orders(old(self)@, id, side, Some(price_idx), qty).2 > 0 ==> match_orders(
                old(self)@,
                id,
                side,
                Some(price_idx),
                qty,
            ).0.free.len() > 0,
        ensures
            final(self).wf(),
            final(self)@ == limit_order_spec(old(self)@, id, side, price_idx, qty).0,
            final(trades)@ == old(trades)@ + limit_order_spec(old(self)@, id, side, price_idx, qty).1,
            r == limit_order_spec(old(self)@, id, side, price_idx, qty).2,
    {
        let remaining = self.match_against(id, side, Some(price_idx), qty, trades);
        if remaining > 0 {
            self.rest_new(id, side, price_idx, remaining);
        }
        remaining
    }

    /// Market order: take what the opposite side offers, rest nothing.
    /// Returns the quantity left unfilled.
    pub fn market_order(&mut self, id: OrderId, side: Side, qty: Qty, trades: &mut Vec<Trade>) -> (r: Qty)
        requires
            old(self).wf(),
        ensures
            final(self).wf(),
            final(self)@ == match_orders(old(self)@, id, side, None, qty).0,
            final(trades)@ == old(trades)@ + match_orders(old(self)@, id, side, None, qty).1,
            r == match_orders(old(self)@, id, side, None, qty).2,
    {
        self.match_against(id, side, None, qty, trades)
    }

    /// Cancels the order the index holds for `id`; `false` when there is
    /// none (already filled, already cancelled, or never placed).
    pub fn cancel(&mut self, id: OrderId) -> (r: bool)
        requires
            old(self).wf(),
        ensures
            final(self).wf(),
            (final(self)@, r) == cancel_spec(old(self)@, id),
    {
        let slot: Option<u32> = match self.index.get(&id) {
            Some(x) => Some(*x),
            None => None,
        };
        match slot {
            None => false,
            Some(x) => {
                proof {
                    reveal(OrderBook::index_ok);
                    assert(self.index@.contains_key(id));
                }
                self.remove_resting(x);
                true
            },
        }
    }
}

} // verus!
