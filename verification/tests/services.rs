use tokimeki_quant_rust::payment_auth::{Decision, RuleLimits, Transaction};
use tokimeki_quant_rust::services::event_pulse::{
    pulse_config, source_wanted, wanted_sources, PulseRun, PulseStep, TRENDING_WINDOW_MS,
};
use tokimeki_quant_rust::services::order_book_arena::{
    arena_config, build_snapshot, check_order_count, parse_records as parse_order_records, side_of,
    ArenaConfig, OrderArenaRun, ParsedRecord, RecordError, EMPTY_SENTINEL,
};
use tokimeki_quant_rust::services::payment_auth_arena::{
    batch_size_or_default, check_transaction_count, rule_limits, to_proto_decision, PaymentArenaRun,
};
use tokimeki_quant_rust::order_book::{OrderBook, Side};
use tokimeki_quant_rust::sources::RawEvent;

// ---------------------------------------------------------------------
//  Order book arena
// ---------------------------------------------------------------------

fn order_record(record_type: u8, order_id: u64, side: u8, price_idx: u32, qty: u32) -> Vec<u8> {
    let mut r = vec![0u8; 24];
    r[0] = record_type;
    r[4..12].copy_from_slice(&order_id.to_le_bytes());
    r[12] = side;
    r[16..20].copy_from_slice(&price_idx.to_le_bytes());
    r[20..24].copy_from_slice(&qty.to_le_bytes());
    r
}

fn rec(record_type: u8, order_id: u64, side: u8, price_idx: u32, qty: u32) -> ParsedRecord {
    ParsedRecord { record_type, order_id, side, price_idx, qty }
}

#[test]
fn order_records_decode_at_their_offsets() {
    let mut buf = order_record(0, 0x0102_0304_0506_0708, 1, 4095, 70_000);
    buf.extend(order_record(2, 9, 0, 0, 5));
    let recs = parse_order_records(&buf).unwrap();
    assert_eq!(recs.len(), 2);
    assert_eq!(recs[0].record_type, 0);
    assert_eq!(recs[0].order_id, 0x0102_0304_0506_0708);
    assert_eq!(recs[0].side, 1);
    assert_eq!(recs[0].price_idx, 4095);
    assert_eq!(recs[0].qty, 70_000);
    assert_eq!(recs[1].record_type, 2);
    assert_eq!(recs[1].qty, 5);
}

#[test]
fn misaligned_order_flow_is_refused() {
    let err = parse_order_records(&[0u8; 25]).err().unwrap();
    assert_eq!(err, "order_flow length 25 is not a multiple of 24");
    assert!(parse_order_records(&[]).unwrap().is_empty());
}

#[test]
fn order_count_must_match_flow_length() {
    assert_eq!(check_order_count(2, 48), Ok(2));
    assert_eq!(check_order_count(-3, 0), Ok(0));
    assert_eq!(
        check_order_count(3, 48),
        Err("order_count (3) does not match order_flow.len()/24 (got 48 bytes)".to_string())
    );
    assert_eq!(
        check_order_count(-1, 24),
        Err("order_count (0) does not match order_flow.len()/24 (got 24 bytes)".to_string())
    );
}

#[test]
fn arena_config_defaults() {
    let c = arena_config(0, -1, 0, 0, 0);
    assert_eq!(c.n_levels, 4096);
    assert_eq!(c.book_capacity, 100_000);
    assert_eq!(c.snapshot_every, usize::MAX);
    assert_eq!(c.batch_size, 1000);
    assert_eq!(c.depth_levels, 10);
    let d = arena_config(16, 8, 2, 3, 4);
    assert_eq!((d.n_levels, d.book_capacity, d.snapshot_every, d.batch_size, d.depth_levels), (16, 8, 2, 3, 4));
}

#[test]
fn side_byte_one_sells() {
    assert_eq!(side_of(1), Side::Sell);
    assert_eq!(side_of(0), Side::Buy);
    assert_eq!(side_of(7), Side::Buy);
}

fn small_config(batch_size: usize, snapshot_every: usize) -> ArenaConfig {
    ArenaConfig { n_levels: 16, book_capacity: 8, snapshot_every, batch_size, depth_levels: 2 }
}

#[test]
fn arena_run_batches_trades_and_snapshots() {
    let recs = vec![
        rec(0, 1, 1, 10, 5),  // sell 5 @10 rests
        rec(0, 2, 1, 11, 5),  // sell 5 @11 rests
        rec(0, 3, 0, 11, 7),  // buy 7 @11: 5 @10, 2 @11
        rec(1, 2, 0, 0, 0),   // cancel the rest of 2
        rec(2, 4, 0, 0, 3),   // market buy 3: nothing left
    ];
    let mut run = OrderArenaRun::new(small_config(2, 3), recs.len());
    let b0 = run.step(&recs[0]).ok().unwrap();
    assert!(b0.is_none());
    let b1 = run.step(&recs[1]).ok().unwrap().unwrap();
    assert_eq!((b1.batch_start_seq, b1.batch_end_seq), (0, 1));
    assert!(b1.trades.is_empty());
    assert!(b1.snapshot.is_none());
    assert!(run.step(&recs[2]).ok().unwrap().is_none());
    let b3 = run.step(&recs[3]).ok().unwrap().unwrap();
    assert_eq!((b3.batch_start_seq, b3.batch_end_seq), (2, 3));
    assert_eq!(b3.trades.len(), 2);
    assert_eq!((b3.trades[0].seq, b3.trades[0].maker_id, b3.trades[0].taker_id), (2, 1, 3));
    assert_eq!((b3.trades[0].price_idx, b3.trades[0].qty), (10, 5));
    assert_eq!((b3.trades[1].maker_id, b3.trades[1].price_idx, b3.trades[1].qty), (2, 11, 2));
    // The snapshot after record 2 (the third): order 2 keeps 3 @11.
    let snap = b3.snapshot.unwrap();
    assert_eq!(snap.seq, 2);
    assert!(snap.bids.is_empty());
    assert_eq!(snap.asks, vec![(11, 3)]);
    let b4 = run.step(&recs[4]).ok().unwrap().unwrap();
    assert_eq!((b4.batch_start_seq, b4.batch_end_seq), (4, 4));
    assert!(b4.trades.is_empty());
    let f = run.final_report();
    assert_eq!(f.order_count, 5);
    assert_eq!(f.trade_count, 2);
    assert_eq!(f.trade_volume, 7);
    assert_eq!(f.best_bid, EMPTY_SENTINEL);
    assert_eq!(f.best_ask, EMPTY_SENTINEL);
}

#[test]
fn arena_run_refuses_bad_records_without_change() {
    let mut run = OrderArenaRun::new(small_config(10, usize::MAX), 3);
    match run.step(&rec(9, 1, 0, 1, 1)) {
        Err(RecordError::UnknownRecordType(m)) => assert_eq!(m, "unknown record_type 9 at record 0"),
        _ => panic!("expected an unknown record type"),
    }
    assert!(matches!(run.step(&rec(0, 1, 0, 16, 1)), Err(RecordError::PriceOutOfRange)));
    assert_eq!(run.processed(), 0);
    assert!(run.step(&rec(0, 1, 0, 3, 1)).is_ok());
    assert_eq!(run.processed(), 1);
    let f = run.final_report();
    assert_eq!(f.best_bid, 3);
}

#[test]
fn arena_run_reports_a_full_arena() {
    let config = ArenaConfig { n_levels: 8, book_capacity: 1, snapshot_every: usize::MAX, batch_size: 10, depth_levels: 1 };
    let mut run = OrderArenaRun::new(config, 4);
    assert!(run.step(&rec(0, 1, 0, 2, 5)).is_ok());
    // No slot for another resting order that cannot trade.
    assert!(matches!(run.step(&rec(0, 2, 0, 3, 5)), Err(RecordError::ArenaFull)));
    // A sell that fills the bid frees the slot and rests its remainder.
    assert!(run.step(&rec(0, 3, 1, 2, 8)).is_ok());
    let f = run.final_report();
    assert_eq!((f.trade_count, f.trade_volume, f.best_bid, f.best_ask), (1, 5, EMPTY_SENTINEL, 2));
}

#[test]
fn book_room_for_limit_orders() {
    let mut b = OrderBook::new(8, 1);
    let mut t = Vec::new();
    assert!(b.room_for_limit(1, Side::Buy, 2, 5));
    b.limit_order(1, Side::Buy, 2, 5, &mut t);
    assert!(b.is_full());
    assert!(!b.room_for_limit(2, Side::Buy, 3, 5));
    assert!(b.room_for_limit(2, Side::Buy, 3, 0));
    assert!(b.room_for_limit(3, Side::Sell, 2, 8));
    assert!(!b.room_for_limit(3, Side::Sell, 3, 8));
    assert_eq!(b.n_levels(), 8);
}

#[test]
fn snapshot_lists_best_levels_first() {
    let mut b = OrderBook::new(16, 16);
    let mut t = Vec::new();
    b.limit_order(1, Side::Buy, 3, 1, &mut t);
    b.limit_order(2, Side::Buy, 5, 2, &mut t);
    b.limit_order(3, Side::Buy, 4, 3, &mut t);
    b.limit_order(4, Side::Sell, 9, 4, &mut t);
    let s = build_snapshot(&b, 42, 2);
    assert_eq!(s.seq, 42);
    assert_eq!(s.bids, vec![(5, 2), (4, 3)]);
    assert_eq!(s.asks, vec![(9, 4)]);
}

// ---------------------------------------------------------------------
//  Payment auth arena
// ---------------------------------------------------------------------

fn tx(seq: u64, amount_cents: u32, velocity_1h: u16) -> Transaction {
    Transaction {
        seq,
        account_id: 1,
        amount_cents,
        merchant_category: 5411,
        country_code: 1,
        geo_delta_km: 1,
        velocity_1h,
        channel: 0,
    }
}

#[test]
fn transaction_count_must_match_flow_length() {
    assert_eq!(check_transaction_count(3, 96), Ok(3));
    assert_eq!(
        check_transaction_count(2, 96),
        Err("transaction_count (2) does not match transaction_flow.len()/32 (got 96 bytes)".to_string())
    );
}

#[test]
fn rule_limits_default_where_zero() {
    let l = rule_limits(0, 0, 0);
    assert_eq!((l.velocity_limit, l.geo_delta_limit_km, l.amount_limit_cents), (5, 500, 50_000));
    let m = rule_limits(1, 2, 3);
    assert_eq!((m.velocity_limit, m.geo_delta_limit_km, m.amount_limit_cents), (1, 2, 3));
    assert_eq!(batch_size_or_default(0), 1000);
    assert_eq!(batch_size_or_default(-4), 1000);
    assert_eq!(batch_size_or_default(7), 7);
}

#[test]
fn payment_run_counts_and_batches() {
    let limits = RuleLimits { velocity_limit: 5, geo_delta_limit_km: 500, amount_limit_cents: 50_000 };
    let txs = vec![tx(10, 100, 1), tx(11, 60_000, 1), tx(12, 60_000, 9)];
    let mut run = PaymentArenaRun::new(limits, 2, txs.len());
    assert!(run.step(&txs[0]).is_none());
    let b = run.step(&txs[1]).unwrap();
    assert_eq!((b.batch_start_seq, b.batch_end_seq), (0, 1));
    assert_eq!(b.decisions.len(), 2);
    assert_eq!(b.decisions[0].seq, 10);
    assert_eq!(b.decisions[0].decision, Decision::Approve);
    assert_eq!(b.decisions[1].decision, Decision::Review);
    let last = run.step(&txs[2]).unwrap();
    assert_eq!((last.batch_start_seq, last.batch_end_seq), (2, 2));
    assert_eq!(last.decisions[0].decision, Decision::Decline);
    assert_eq!(last.decisions[0].risk_score, 700);
    assert_eq!(run.counts(), (3, 1, 1, 1));
}

// ---------------------------------------------------------------------
//  Event pulse
// ---------------------------------------------------------------------

fn names(v: &[&str]) -> Vec<String> {
    v.iter().map(|s| s.to_string()).collect()
}

#[test]
fn wanted_sources_default_and_check() {
    assert_eq!(wanted_sources(&vec![]), Ok(names(&["bluesky", "wikipedia"])));
    assert_eq!(wanted_sources(&names(&["stackoverflow"])), Ok(names(&["stackoverflow"])));
    let err = wanted_sources(&names(&["wikipedia", "not-a-real-source", "nope"])).err().unwrap();
    assert!(err.contains("not-a-real-source"));
    assert_eq!(
        err,
        "unknown source \"not-a-real-source\" \u{2014} expected \"bluesky\", \"wikipedia\", or \"stackoverflow\""
    );
    let w = names(&["wikipedia"]);
    assert!(source_wanted(&w, "wikipedia"));
    assert!(!source_wanted(&w, "bluesky"));
}

#[test]
fn pulse_config_defaults() {
    let c = pulse_config(0, 0, 0);
    assert_eq!((c.batch_ms, c.top_n, c.max_events), (250, 5, u64::MAX));
    let d = pulse_config(20, 3, 9);
    assert_eq!((d.batch_ms, d.top_n, d.max_events), (20, 3, 9));
}

fn raw(summary: &str, ts_ms: i64) -> RawEvent {
    RawEvent { source: "wikipedia", kind: "edit".to_string(), summary: summary.to_string(), ts_ms }
}

#[test]
fn pulse_flushes_eagerly_at_eight_events() {
    let mut run = PulseRun::new(pulse_config(0, 2, 0));
    for i in 0..7 {
        assert!(matches!(run.on_event(raw("alpha beta", i)), PulseStep::Continue));
    }
    match run.on_event(raw("alpha gamma", 7)) {
        PulseStep::Flush(b) => {
            assert_eq!(b.batch_seq, 1);
            assert_eq!(b.events.len(), 8);
            assert_eq!(b.total_ingested, 8);
            assert!(!b.is_final);
            assert_eq!(b.trending, vec![("alpha".to_string(), 8), ("beta".to_string(), 7)]);
        },
        _ => panic!("expected a flush"),
    }
    assert_eq!(run.batch_seq(), 1);
}

#[test]
fn pulse_ticker_batch_with_no_events() {
    let mut run = PulseRun::new(pulse_config(20, 5, 0));
    let b = run.on_tick();
    assert_eq!(b.batch_seq, 1);
    assert!(!b.is_final);
    assert_eq!(b.total_ingested, 0);
    assert!(b.events.is_empty());
    assert!(b.trending.is_empty());
}

#[test]
fn pulse_stops_at_max_events_and_finishes() {
    let mut run = PulseRun::new(pulse_config(0, 5, 2));
    assert!(matches!(run.on_event(raw("one", 0)), PulseStep::Continue));
    assert!(matches!(run.on_event(raw("two", 1)), PulseStep::Stop));
    assert_eq!(run.total_ingested(), 2);
    let f = run.finish();
    assert!(f.is_final);
    assert_eq!(f.batch_seq, 1);
    assert_eq!(f.events.len(), 2);
    assert!(f.trending.is_empty());
    assert_eq!(f.total_ingested, 2);
}

#[test]
fn pulse_window_is_thirty_seconds() {
    assert_eq!(TRENDING_WINDOW_MS, 30_000);
    let mut run = PulseRun::new(pulse_config(0, 5, 0));
    assert!(matches!(run.on_event(raw("oldword", 0)), PulseStep::Continue));
    assert!(matches!(run.on_event(raw("newword", 30_001)), PulseStep::Continue));
    let b = run.on_tick();
    assert_eq!(b.trending, vec![("newword".to_string(), 1)]);
    assert_eq!(b.events.len(), 2);
    assert_eq!(b.total_ingested, 2);
}

#[test]
fn decisions_have_wire_codes() {
    assert_eq!(to_proto_decision(Decision::Approve), 0);
    assert_eq!(to_proto_decision(Decision::Review), 1);
    assert_eq!(to_proto_decision(Decision::Decline), 2);
}
