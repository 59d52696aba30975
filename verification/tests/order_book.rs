use tokimeki_quant_rust::order_book::{OrderBook, Side, Trade};

fn book() -> OrderBook {
    OrderBook::new(1000, 10_000)
}

#[test]
fn resting_and_best_price() {
    let mut b = book();
    let mut t = Vec::new();

    b.limit_order(1, Side::Buy, 100, 200, &mut t);
    b.limit_order(2, Side::Buy, 104, 500, &mut t);
    b.limit_order(3, Side::Sell, 107, 150, &mut t);

    assert!(t.is_empty(), "no trade expected");
    assert_eq!(b.best_bid(), Some(104));
    assert_eq!(b.best_ask(), Some(107));
}

#[test]
fn price_time_priority() {
    let mut b = book();
    let mut t = Vec::new();

    // Three sells at 107, in time order 10 -> 11 -> 12.
    b.limit_order(10, Side::Sell, 107, 50, &mut t);
    b.limit_order(11, Side::Sell, 107, 50, &mut t);
    b.limit_order(12, Side::Sell, 107, 50, &mut t);
    // A worse price.
    b.limit_order(13, Side::Sell, 108, 100, &mut t);
    t.clear();

    // Buy 120 @ 108: takes level 107 first, in the order 10, 11, 12.
    let rest = b.limit_order(20, Side::Buy, 108, 120, &mut t);
    assert_eq!(rest, 0);
    assert_eq!(
        t,
        vec![
            Trade { maker_id: 10, taker_id: 20, price_idx: 107, qty: 50 },
            Trade { maker_id: 11, taker_id: 20, price_idx: 107, qty: 50 },
            Trade { maker_id: 12, taker_id: 20, price_idx: 107, qty: 20 },
        ]
    );
    // 30 of order 12 still rests.
    assert_eq!(b.best_ask(), Some(107));
    assert_eq!(b.level_qty(Side::Sell, 107), 30);
}

#[test]
fn partial_fill_rests() {
    let mut b = book();
    let mut t = Vec::new();

    b.limit_order(1, Side::Sell, 100, 50, &mut t);
    t.clear();

    let rest = b.limit_order(2, Side::Buy, 100, 80, &mut t);
    assert_eq!(rest, 30);
    assert_eq!(t.len(), 1);
    assert_eq!(b.best_ask(), None);
    assert_eq!(b.best_bid(), Some(100));
    assert_eq!(b.level_qty(Side::Buy, 100), 30);
}

#[test]
fn cancel_middle_of_queue() {
    let mut b = book();
    let mut t = Vec::new();

    b.limit_order(1, Side::Sell, 100, 10, &mut t);
    b.limit_order(2, Side::Sell, 100, 20, &mut t);
    b.limit_order(3, Side::Sell, 100, 30, &mut t);
    t.clear();

    assert!(b.cancel(2));
    assert!(!b.cancel(2), "a second cancel must return false");
    assert_eq!(b.level_qty(Side::Sell, 100), 40);

    b.limit_order(9, Side::Buy, 100, 40, &mut t);
    assert_eq!(
        t,
        vec![
            Trade { maker_id: 1, taker_id: 9, price_idx: 100, qty: 10 },
            Trade { maker_id: 3, taker_id: 9, price_idx: 100, qty: 30 },
        ],
        "2 was cancelled and must be skipped"
    );
}

#[test]
fn cancel_best_level_moves_cursor() {
    let mut b = book();
    let mut t = Vec::new();

    b.limit_order(1, Side::Sell, 100, 10, &mut t);
    b.limit_order(2, Side::Sell, 105, 10, &mut t);
    assert_eq!(b.best_ask(), Some(100));

    b.cancel(1);
    assert_eq!(b.best_ask(), Some(105), "cursor must move once the best level is empty");

    b.cancel(2);
    assert_eq!(b.best_ask(), None);
}

#[test]
fn market_order_sweeps() {
    let mut b = book();
    let mut t = Vec::new();

    b.limit_order(1, Side::Sell, 100, 10, &mut t);
    b.limit_order(2, Side::Sell, 101, 10, &mut t);
    b.limit_order(3, Side::Sell, 102, 10, &mut t);
    t.clear();

    let unfilled = b.market_order(9, Side::Buy, 25, &mut t);
    assert_eq!(unfilled, 0);
    assert_eq!(t.len(), 3);
    assert_eq!(t[2], Trade { maker_id: 3, taker_id: 9, price_idx: 102, qty: 5 });

    // Sweep the whole book.
    t.clear();
    let unfilled = b.market_order(10, Side::Buy, 100, &mut t);
    assert_eq!(unfilled, 95, "the book is empty, the rest is dropped");
    assert_eq!(b.best_ask(), None);
}

#[test]
fn arena_is_reused() {
    // Place and cancel again and again: the arena must reuse its slots.
    let mut b = OrderBook::new(100, 4);
    let mut t = Vec::new();
    for i in 0..1000u64 {
        b.limit_order(i, Side::Buy, 50, 1, &mut t);
        assert!(b.cancel(i));
    }
    assert_eq!(b.best_bid(), None);
}

#[test]
fn no_alloc_in_steady_state() {
    // The trades buffer is reserved once and reused.
    let mut b = book();
    let mut t = Vec::with_capacity(64);
    for i in 0..500u64 {
        t.clear();
        b.limit_order(i * 2, Side::Sell, 100, 5, &mut t);
        b.limit_order(i * 2 + 1, Side::Buy, 100, 5, &mut t);
        assert_eq!(t.capacity(), 64, "the trades buffer must not grow");
    }
}

#[test]
fn matching_conserves_quantity() {
    let mut b = book();
    let mut t = Vec::new();
    b.limit_order(1, Side::Sell, 101, 30, &mut t);
    b.limit_order(2, Side::Sell, 102, 40, &mut t);
    let rest = b.limit_order(3, Side::Buy, 102, 100, &mut t);
    let traded: u32 = t.iter().map(|x| x.qty).sum();
    assert_eq!(traded + rest, 100);
    assert_eq!(rest, 30);
    assert!(t.iter().all(|x| x.taker_id == 3 && x.qty > 0));
    // The remainder rests at the limit.
    assert_eq!(b.best_bid(), Some(102));
    assert_eq!(b.level_qty(Side::Buy, 102), 30);
}

#[test]
fn limit_is_respected() {
    let mut b = book();
    let mut t = Vec::new();
    b.limit_order(1, Side::Sell, 105, 10, &mut t);
    let rest = b.limit_order(2, Side::Buy, 104, 10, &mut t);
    assert!(t.is_empty());
    assert_eq!(rest, 10);
    assert_eq!((b.best_bid(), b.best_ask()), (Some(104), Some(105)));
    // A sell limit never trades below its price either.
    let rest = b.limit_order(3, Side::Sell, 105, 4, &mut t);
    assert!(t.is_empty());
    assert_eq!(rest, 4);
    assert_eq!(b.level_qty(Side::Sell, 105), 14);
}

#[test]
fn market_order_never_rests() {
    let mut b = book();
    let mut t = Vec::new();
    let left = b.market_order(1, Side::Sell, 50, &mut t);
    assert_eq!(left, 50);
    assert!(t.is_empty());
    assert_eq!((b.best_bid(), b.best_ask()), (None, None));
    assert!(!b.cancel(1));
}

#[test]
fn cancel_twice_and_unknown_ids() {
    let mut b = book();
    let mut t = Vec::new();
    b.limit_order(7, Side::Buy, 10, 3, &mut t);
    assert!(b.cancel(7));
    assert!(!b.cancel(7));
    assert!(!b.cancel(12345));
    assert_eq!(b.level_qty(Side::Buy, 10), 0);
}

#[test]
fn rest_then_cancel_restores_levels() {
    let mut b = book();
    let mut t = Vec::new();
    b.limit_order(1, Side::Sell, 200, 5, &mut t);
    let before = (b.best_bid(), b.best_ask(), b.top_levels(Side::Sell, 5));
    b.limit_order(2, Side::Sell, 150, 9, &mut t);
    assert_eq!(b.best_ask(), Some(150));
    assert!(b.cancel(2));
    assert_eq!((b.best_bid(), b.best_ask(), b.top_levels(Side::Sell, 5)), before);
}

#[test]
fn top_levels_best_first_and_capped() {
    let mut b = book();
    let mut t = Vec::new();
    for (i, p) in [(1u64, 90u32), (2, 95), (3, 92), (4, 95)] {
        b.limit_order(i, Side::Buy, p, 10, &mut t);
    }
    assert_eq!(b.top_levels(Side::Buy, 2), vec![(95, 20), (92, 10)]);
    assert_eq!(b.top_levels(Side::Buy, 10), vec![(95, 20), (92, 10), (90, 10)]);
    assert!(b.top_levels(Side::Sell, 3).is_empty());
    assert!(b.top_levels(Side::Buy, 0).is_empty());
}

#[test]
fn edge_levels_of_the_book() {
    let mut b = OrderBook::new(10, 4);
    let mut t = Vec::new();
    b.limit_order(1, Side::Buy, 0, 1, &mut t);
    b.limit_order(2, Side::Sell, 9, 1, &mut t);
    assert_eq!((b.best_bid(), b.best_ask()), (Some(0), Some(9)));
    let mut t2: Vec<Trade> = Vec::new();
    b.market_order(3, Side::Buy, 5, &mut t2);
    assert_eq!(t2, vec![Trade { maker_id: 2, taker_id: 3, price_idx: 9, qty: 1 }]);
    assert_eq!(b.best_ask(), None);
}

#[test]
fn market_order_trades_as_a_limit_at_the_far_level() {
    let setup = || {
        let mut b = OrderBook::new(1000, 64);
        let mut t = Vec::new();
        b.limit_order(1, Side::Sell, 101, 5, &mut t);
        b.limit_order(2, Side::Sell, 990, 7, &mut t);
        b.limit_order(3, Side::Sell, 101, 8, &mut t);
        b
    };
    let mut m = setup();
    let mut l = setup();
    let (mut tm, mut tl) = (Vec::new(), Vec::new());
    let left_m = m.market_order(9, Side::Buy, 25, &mut tm);
    let left_l = l.limit_order(9, Side::Buy, 999, 25, &mut tl);
    assert_eq!(tm, tl);
    assert_eq!((left_m, left_l), (5, 5));
    // The market order took the whole ask side and rests nothing.
    assert_eq!(m.best_ask(), None);
    assert_eq!(m.best_bid(), None);
    // The limit order rests what is left at its level.
    assert_eq!(l.best_bid(), Some(999));
}

#[test]
fn limit_that_cannot_trade_then_cancel_restores() {
    let mut b = book();
    let mut t = Vec::new();
    b.limit_order(1, Side::Sell, 300, 4, &mut t);
    let before = (b.best_bid(), b.best_ask(), b.top_levels(Side::Buy, 10), b.top_levels(Side::Sell, 10));
    assert_eq!(b.limit_order(2, Side::Buy, 299, 6, &mut t), 6);
    assert!(t.is_empty());
    assert!(b.cancel(2));
    assert_eq!((b.best_bid(), b.best_ask(), b.top_levels(Side::Buy, 10), b.top_levels(Side::Sell, 10)), before);
}
