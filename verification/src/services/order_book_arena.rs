//! The order book arena: a binary order flow of 24-byte records is replayed
//! against an `OrderBook`, with trades, depth snapshots and batches
//! reported as it goes.
use vstd::prelude::*;
use vstd::bytes::{spec_u32_from_le_bytes, spec_u64_from_le_bytes, u32_from_le_bytes, u64_from_le_bytes};
use vstd::slice::slice_subrange;
use crate::strings::{decimal, push_decimal, push_str};
use crate::order_book::{OrderBook, Side, Trade, TickIdx};
use crate::order_book::model::{BookView, limit_order_spec, cancel_spec, match_orders, top_levels_spec, empty_book};
use crate::order_book::laws::trades_qty;

verus! {

/// Length in bytes of one order record on the wire.
pub const RECORD_LEN: usize = 24;

/// What the final report holds for a side with no resting order.
pub const EMPTY_SENTINEL: u32 = 0xFFFF_FFFF;

/// One decoded order record.
#[derive(Clone, Copy, Debug)]
pub struct ParsedRecord {
    /// 0 = limit, 1 = cancel, 2 = market.
    pub record_type: u8,
    pub order_id: u64,
    /// 0 = buy, 1 = sell.
    pub side: u8,
    pub price_idx: u32,
    pub qty: u32,
}

/// The record encoded in 24 bytes: the type byte at 0, the little-endian
/// order id at 4, the side byte at 12, the little-endian price index at 16
/// and quantity at 20; the other bytes are padding.
pub open spec fn decode_order_record(r: Seq<u8>) -> ParsedRecord {
    ParsedRecord {
        record_type: r[0],
        order_id: spec_u64_from_le_bytes(r.subrange(4, 12)),
        side: r[12],
        price_idx: spec_u32_from_le_bytes(r.subrange(16, 20)),
        qty: spec_u32_from_le_bytes(r.subrange(20, 24)),
    }
}

/// The `i`-th order record of a buffer.
pub open spec fn order_record_at(buf: Seq<u8>, i: int) -> Seq<u8> {
    buf.subrange(i * 24, i * 24 + 24)
}

/// The error text for an order flow whose length is not a whole number of
/// records.
pub open spec fn misaligned_order_flow_text(len: usize, record_len: usize) -> Seq<char> {
    "order_flow length "@ + decimal(len as nat) + " is not a multiple of "@ + decimal(record_len as nat)
}

fn misaligned_order_flow_message(len: usize, record_len: usize) -> (s: String)
    ensures
        s@ == misaligned_order_flow_text(len, record_len),
{
    let mut s = String::new();
    push_str(&mut s, "order_flow length ");
    push_decimal(&mut s, len as u64);
    push_str(&mut s, " is not a multiple of ");
    push_decimal(&mut s, record_len as u64);
    s
}

/// Decodes a buffer of back-to-back 24-byte order records; a buffer whose
/// length is not a multiple of 24 is refused.
pub fn parse_records(buf: &[u8]) -> (res: Result<Vec<ParsedRecord>, String>)
    ensures
        res is Ok <==> buf@.len() % 24 == 0,
        res matches Err(e) ==> e@ == misaligned_order_flow_text(buf@.len() as usize, RECORD_LEN),
        res matches Ok(v) ==> {
            &&& v@.len() == buf@.len() / 24
            &&& forall|i: int|
                0 <= i < v@.len() ==> #[trigger] v@[i] == decode_order_record(order_record_at(buf@, i))
        },
{
    if buf.len() % RECORD_LEN != 0 {
        return Err(misaligned_order_flow_message(buf.len(), RECORD_LEN));
    }
    let len = buf.len();
    let n = len / RECORD_LEN;
    let mut out: Vec<ParsedRecord> = Vec::with_capacity(n);
    let mut i: usize = 0;
    while i < n
        invariant
            len == buf@.len(),
            n == len / 24,
            len % 24 == 0,
            i <= n,
            out@.len() == i,
            forall|j: int| 0 <= j < i ==> #[trigger] out@[j] == decode_order_record(order_record_at(buf@, j)),
        decreases n - i,
    {
        assert(i * 24 + 24 <= len) by (nonlinear_arith)
            requires
                i < n,
                n == len / 24,
        ;
        let off = i * RECORD_LEN;
        let rec = slice_subrange(buf, off, off + RECORD_LEN);
        assert(rec@ == order_record_at(buf@, i as int));
        let r = ParsedRecord {
            record_type: rec[0],
            order_id: u64_from_le_bytes(slice_subrange(rec, 4, 12)),
            side: rec[12],
            price_idx: u32_from_le_bytes(slice_subrange(rec, 16, 20)),
            qty: u32_from_le_bytes(slice_subrange(rec, 20, 24)),
        };
        out.push(r);
        i = i + 1;
    }
    Ok(out)
}

/// The error text for an order count that does not match the flow's length.
pub open spec fn order_count_mismatch_text(count: usize, record_len: usize, flow_len: usize) -> Seq<char> {
    "order_count ("@ + decimal(count as nat) + ") does not match order_flow.len()/"@ + decimal(record_len as nat)
        + " (got "@ + decimal(flow_len as nat) + " bytes)"@
}

fn order_count_mismatch_message(count: usize, record_len: usize, flow_len: usize) -> (s: String)
    ensures
        s@ == order_count_mismatch_text(count, record_len, flow_len),
{
    let mut s = String::new();
    push_str(&mut s, "order_count (");
    push_decimal(&mut s, count as u64);
    push_str(&mut s, ") does not match order_flow.len()/");
    push_decimal(&mut s, record_len as u64);
    push_str(&mut s, " (got ");
    push_decimal(&mut s, flow_len as u64);
    push_str(&mut s, " bytes)");
    s
}

/// The count a request names, a negative one read as zero.
pub open spec fn requested_count(count: i32) -> int {
    if count < 0 { 0 } else { count as int }
}

/// Checks a request's order count against its flow: the count, negative
/// read as zero, times 24 must be the flow's length.
pub fn check_order_count(order_count: i32, flow_len: usize) -> (r: Result<usize, String>)
    ensures
        r is Ok <==> requested_count(order_count) * 24 == flow_len,
        r matches Ok(c) ==> c == requested_count(order_count),
        r matches Err(e) ==> e@ == order_count_mismatch_text(
            requested_count(order_count) as usize,
            RECORD_LEN,
            flow_len,
        ),
{
    let count: usize = if order_count < 0 { 0 } else { order_count as usize };
    match count.checked_mul(RECORD_LEN) {
        Some(len) => {
            if len == flow_len {
                Ok(count)
            } else {
                Err(order_count_mismatch_message(count, RECORD_LEN, flow_len))
            }
        },
        None => Err(order_count_mismatch_message(count, RECORD_LEN, flow_len)),
    }
}

/// The settings of one arena run.
#[derive(Clone, Copy, Debug)]
pub struct ArenaConfig {
    pub n_levels: usize,
    pub book_capacity: usize,
    /// A depth snapshot after every this many orders.
    pub snapshot_every: usize,
    /// A batch after every this many orders.
    pub batch_size: usize,
    /// Levels per side in a snapshot.
    pub depth_levels: usize,
}

/// A requested setting, or the default where it is not positive.
pub open spec fn setting(x: i32, default: usize) -> usize {
    if x > 0 { x as usize } else { default }
}

/// The run settings a request asks for: each one that is not positive
/// takes its default (4096 levels, 100 000 arena slots, no snapshots,
/// batches of 1000, 10 levels of depth).
pub fn arena_config(
    n_levels: i32,
    book_capacity: i32,
    snapshot_every: i32,
    batch_size: i32,
    depth_levels: i32,
) -> (c: ArenaConfig)
    ensures
        c.n_levels == setting(n_levels, 4096),
        c.book_capacity == setting(book_capacity, 100_000),
        c.snapshot_every == setting(snapshot_every, usize::MAX),
        c.batch_size == setting(batch_size, 1000),
        c.depth_levels == setting(depth_levels, 10),
{
    ArenaConfig {
        n_levels: if n_levels > 0 { n_levels as usize } else { 4096 },
        book_capacity: if book_capacity > 0 { book_capacity as usize } else { 100_000 },
        snapshot_every: if snapshot_every > 0 { snapshot_every as usize } else { usize::MAX },
        batch_size: if batch_size > 0 { batch_size as usize } else { 1000 },
        depth_levels: if depth_levels > 0 { depth_levels as usize } else { 10 },
    }
}


/// Buy or sell as a record's side byte names it: 1 sells, anything else
/// buys.
pub open spec fn side_of_spec(raw: u8) -> Side {
    if raw == 1 { Side::Sell } else { Side::Buy }
}

pub fn side_of(raw: u8) -> (s: Side)
    ensures
        s == side_of_spec(raw),
{
    if raw == 1 {
        Side::Sell
    } else {
        Side::Buy
    }
}

/// A trade as the arena reports it: stamped with the number of the record
/// that caused it.
#[derive(Clone, Copy, Debug, PartialEq, Eq, Structural)]
pub struct ArenaTrade {
    pub seq: u64,
    pub maker_id: u64,
    pub taker_id: u64,
    pub price_idx: u32,
    pub qty: u32,
}

/// The trades of one record, stamped with its number.
pub open spec fn stamp(ts: Seq<Trade>, seq: u64) -> Seq<ArenaTrade> {
    ts.map_values(
        |t: Trade|
            ArenaTrade {
                seq,
                maker_id: t.maker_id,
                taker_id: t.taker_id,
                price_idx: t.price_idx,
                qty: t.qty,
            },
    )
}

/// The best levels of both sides after one record.
pub struct DepthSnapshot {
    pub seq: u64,
    pub bids: Vec<(TickIdx, u64)>,
    pub asks: Vec<(TickIdx, u64)>,
}

pub struct SnapshotView {
    pub seq: u64,
    pub bids: Seq<(TickIdx, u64)>,
    pub asks: Seq<(TickIdx, u64)>,
}

impl View for DepthSnapshot {
    type V = SnapshotView;

    open spec fn view(&self) -> SnapshotView {
        SnapshotView { seq: self.seq, bids: self.bids@, asks: self.asks@ }
    }
}

/// The snapshot of a book: up to `depth` levels a side, best first.
pub open spec fn snapshot_spec(v: BookView, seq: u64, depth: usize) -> SnapshotView {
    SnapshotView {
        seq,
        bids: top_levels_spec(v, Side::Buy, depth as nat),
        asks: top_levels_spec(v, Side::Sell, depth as nat),
    }
}

pub fn build_snapshot(book: &OrderBook, seq: u64, depth_levels: usize) -> (s: DepthSnapshot)
    requires
        book.wf(),
    ensures
        s@ == snapshot_spec(book@, seq, depth_levels),
{
    let bids = book.top_levels(Side::Buy, depth_levels);
    let asks = book.top_levels(Side::Sell, depth_levels);
    DepthSnapshot { seq, bids, asks }
}

/// What the arena reports at a batch boundary.
pub struct OrderBatch {
    pub batch_start_seq: u64,
    pub batch_end_seq: u64,
    pub trades: Vec<ArenaTrade>,
    pub snapshot: Option<DepthSnapshot>,
}

pub struct BatchView {
    pub batch_start_seq: u64,
    pub batch_end_seq: u64,
    pub trades: Seq<ArenaTrade>,
    pub snapshot: Option<SnapshotView>,
}

pub open spec fn snapshot_opt_view(s: Option<DepthSnapshot>) -> Option<SnapshotView> {
    match s {
        Some(x) => Some(x@),
        None => None,
    }
}

impl View for OrderBatch {
    type V = BatchView;

    open spec fn view(&self) -> BatchView {
        BatchView {
            batch_start_seq: self.batch_start_seq,
            batch_end_seq: self.batch_end_seq,
            trades: self.trades@,
            snapshot: snapshot_opt_view(self.snapshot),
        }
    }
}

pub open spec fn batch_opt_view(b: Option<OrderBatch>) -> Option<BatchView> {
    match b {
        Some(x) => Some(x@),
        None => None,
    }
}

/// Why a record cannot be replayed.
pub enum RecordError {
    /// A record type other than limit, cancel or market, with the message
    /// the run ends on.
    UnknownRecordType(String),
    /// A limit order for a level the book does not have.
    PriceOutOfRange,
    /// A limit order whose remainder finds no free arena slot.
    ArenaFull,
}

/// The error text for a record of unknown type.
pub open spec fn unknown_record_text(record_type: u8, index: usize) -> Seq<char> {
    "unknown record_type "@ + decimal(record_type as nat) + " at record "@ + decimal(index as nat)
}

fn unknown_record_message(record_type: u8, index: usize) -> (s: String)
    ensures
        s@ == unknown_record_text(record_type, index),
{
    let mut s = String::new();
    push_str(&mut s, "unknown record_type ");
    push_decimal(&mut s, record_type as u64);
    push_str(&mut s, " at record ");
    push_decimal(&mut s, index as u64);
    s
}

pub open spec fn price_out_of_range(v: BookView, rec: ParsedRecord) -> bool {
    rec.record_type == 0 && rec.price_idx >= v.n_levels
}

pub open spec fn arena_full(v: BookView, rec: ParsedRecord) -> bool {
    let m = match_orders(v, rec.order_id, side_of_spec(rec.side), Some(rec.price_idx), rec.qty);
    &&& rec.record_type == 0
    &&& rec.price_idx < v.n_levels
    &&& m.2 > 0
    &&& m.0.free.len() == 0
}

/// A record the book can take: a known type, and for a limit order a level
/// the book has and room for what rests.
pub open spec fn record_ok(v: BookView, rec: ParsedRecord) -> bool {
    rec.record_type <= 2 && !price_out_of_range(v, rec) && !arena_full(v, rec)
}

/// The book after one record, and the trades it made.
pub open spec fn apply_spec(v: BookView, rec: ParsedRecord) -> (BookView, Seq<Trade>) {
    let side = side_of_spec(rec.side);
    if rec.record_type == 0 {
        let r = limit_order_spec(v, rec.order_id, side, rec.price_idx, rec.qty);
        (r.0, r.1)
    } else if rec.record_type == 1 {
        (cancel_spec(v, rec.order_id).0, seq![])
    } else {
        let r = match_orders(v, rec.order_id, side, None, rec.qty);
        (r.0, r.1)
    }
}

/// An integer as a `u64` counter that wraps.
pub open spec fn wrap64(x: int) -> u64 {
    (x % 0x1_0000_0000_0000_0000int) as u64
}

pub struct ArenaRunView {
    pub book: BookView,
    pub config: ArenaConfig,
    /// Records in the flow.
    pub total: nat,
    /// Records replayed so far.
    pub processed: nat,
    pub trade_count: u64,
    pub trade_volume: u64,
    /// Trades since the last batch.
    pub batch_trades: Seq<ArenaTrade>,
    /// The number of the first record of the open batch.
    pub batch_start_seq: u64,
    /// The record count at which the next snapshot is taken.
    pub next_snapshot_at: nat,
    /// A snapshot waiting for the next batch.
    pub pending: Option<SnapshotView>,
}

/// One record replayed: the book moves, its trades join the open batch and
/// the totals, a snapshot is taken when one is due, and at a batch boundary
/// (every `batch_size` records, and after the last) the batch is handed out
/// and a new one opened.
pub open spec fn step_spec(a: ArenaRunView, rec: ParsedRecord) -> (ArenaRunView, Option<BatchView>) {
    let seq = a.processed as u64;
    let (book, ts) = apply_spec(a.book, rec);
    let processed: nat = a.processed + 1;
    let trades = a.batch_trades + stamp(ts, seq);
    let fire = processed >= a.next_snapshot_at;
    let pending = if fire { Some(snapshot_spec(book, seq, a.config.depth_levels)) } else { a.pending };
    let next: nat = if fire { a.next_snapshot_at + (a.config.snapshot_every as nat) } else { a.next_snapshot_at };
    let count = wrap64(a.trade_count + ts.len());
    let volume = wrap64(a.trade_volume + trades_qty(ts));
    if processed % (a.config.batch_size as nat) == 0 || processed == a.total {
        (
            ArenaRunView {
                book,
                processed,
                trade_count: count,
                trade_volume: volume,
                batch_trades: seq![],
                batch_start_seq: (seq + 1) as u64,
                next_snapshot_at: next,
                pending: None,
                ..a
            },
            Some(BatchView { batch_start_seq: a.batch_start_seq, batch_end_seq: seq, trades, snapshot: pending }),
        )
    } else {
        (
            ArenaRunView {
                book,
                processed,
                trade_count: count,
                trade_volume: volume,
                batch_trades: trades,
                next_snapshot_at: next,
                pending,
                ..a
            },
            None,
        )
    }
}

/// The totals at the end of a run.
#[derive(Clone, Copy, Debug)]
pub struct ArenaFinal {
    pub order_count: u64,
    /// The best bid level, or `EMPTY_SENTINEL`.
    pub best_bid: u32,
    /// The best ask level, or `EMPTY_SENTINEL`.
    pub best_ask: u32,
    pub trade_count: u64,
    pub trade_volume: u64,
}

/// One replay of an order flow against a fresh book.
pub struct OrderArenaRun {
    book: OrderBook,
    config: ArenaConfig,
    total: usize,
    processed: usize,
    trade_count: u64,
    trade_volume: u64,
    batch_trades: Vec<ArenaTrade>,
    batch_start_seq: u64,
    next_snapshot_at: usize,
    pending: Option<DepthSnapshot>,
    /// Reused for the trades of each record.
    trades_buf: Vec<Trade>,
}

proof fn lemma_trades_qty_push(ts: Seq<Trade>, t: Trade)
    ensures
        trades_qty(ts.push(t)) == trades_qty(ts) + t.qty,
    decreases ts.len(),
{
    if ts.len() > 0 {
        lemma_trades_qty_push(ts.drop_first(), t);
        assert(ts.push(t).drop_first() =~= ts.drop_first().push(t));
        assert(ts.push(t)[0] == ts[0]);
    } else {
        assert(ts.push(t).drop_first() =~= Seq::<Trade>::empty());
        assert(ts.push(t)[0] == t);
        assert(trades_qty(Seq::<Trade>::empty()) == 0);
    }
}

proof fn lemma_trades_qty_nonneg(ts: Seq<Trade>)
    ensures
        trades_qty(ts) >= 0,
    decreases ts.len(),
{
    if ts.len() > 0 {
        lemma_trades_qty_nonneg(ts.drop_first());
    }
}

proof fn lemma_wrap_add(x: int, y: int)
    requires
        0 <= x,
        0 <= y,
    ensures
        wrap64(wrap64(x) + y) == wrap64(x + y),
{
    vstd::arithmetic::div_mod::lemma_add_mod_noop(x, y, 0x1_0000_0000_0000_0000int);
    vstd::arithmetic::div_mod::lemma_add_mod_noop(x % 0x1_0000_0000_0000_0000int, y, 0x1_0000_0000_0000_0000int);
    vstd::arithmetic::div_mod::lemma_mod_twice(x, 0x1_0000_0000_0000_0000int);
}

/// Folds the trades of record `seq` into the open batch and the totals.
fn fold_trades(ts: &Vec<Trade>, seq: u64, out: &mut Vec<ArenaTrade>, count: u64, volume: u64) -> (r: (u64, u64))
    ensures
        final(out)@ == old(out)@ + stamp(ts@, seq),
        r.0 == wrap64(count + ts@.len()),
        r.1 == wrap64(volume + trades_qty(ts@)),
{
    let mut c = count;
    let mut v = volume;
    let mut k: usize = 0;
    proof {
        assert(ts@.take(0) =~= Seq::<Trade>::empty());
        assert(stamp(ts@.take(0), seq) =~= Seq::<ArenaTrade>::empty());
        vstd::arithmetic::div_mod::lemma_small_mod(count as nat, 0x1_0000_0000_0000_0000nat);
        vstd::arithmetic::div_mod::lemma_small_mod(volume as nat, 0x1_0000_0000_0000_0000nat);
    }
    while k < ts.len()
        invariant
            k <= ts@.len(),
            out@ == old(out)@ + stamp(ts@.take(k as int), seq),
            c == wrap64(count + k),
            v == wrap64(volume + trades_qty(ts@.take(k as int))),
        decreases ts@.len() - k,
    {
        let t = ts[k];
        proof {
            let pre = ts@.take(k as int);
            assert(ts@.take(k + 1) =~= pre.push(t));
            lemma_trades_qty_push(pre, t);
            lemma_trades_qty_nonneg(pre);
            lemma_wrap_add(count + k, 1);
            lemma_wrap_add(volume + trades_qty(pre), t.qty as int);
            assert(stamp(ts@.take(k + 1), seq) =~= stamp(pre, seq).push(
                ArenaTrade { seq, maker_id: t.maker_id, taker_id: t.taker_id, price_idx: t.price_idx, qty: t.qty },
            ));
        }
        c = c.wrapping_add(1);
        v = v.wrapping_add(t.qty as u64);
        out.push(ArenaTrade { seq, maker_id: t.maker_id, taker_id: t.taker_id, price_idx: t.price_idx, qty: t.qty });
        k = k + 1;
    }
    proof {
        assert(ts@.take(ts@.len() as int) =~= ts@);
    }
    (c, v)
}

impl View for OrderArenaRun {
    type V = ArenaRunView;

    closed spec fn view(&self) -> ArenaRunView {
        ArenaRunView {
            book: self.book@,
            config: self.config,
            total: self.total as nat,
            processed: self.processed as nat,
            trade_count: self.trade_count,
            trade_volume: self.trade_volume,
            batch_trades: self.batch_trades@,
            batch_start_seq: self.batch_start_seq,
            next_snapshot_at: self.next_snapshot_at as nat,
            pending: snapshot_opt_view(self.pending),
        }
    }
}

impl OrderArenaRun {
    /// The run's invariant: a well-formed book of the configured size, a
    /// positive batch size, and a snapshot schedule that cannot overflow.
    pub closed spec fn wf(&self) -> bool {
        &&& self.book.wf()
        &&& self.config.batch_size > 0
        &&& self.config.snapshot_every > 0
        &&& self.processed <= self.total < usize::MAX
        &&& self.processed < self.next_snapshot_at
        &&& self.batch_start_seq <= self.processed
        &&& self.config.snapshot_every == usize::MAX ==> self.next_snapshot_at == usize::MAX
        &&& self.config.snapshot_every != usize::MAX ==> self.total + self.config.snapshot_every <= usize::MAX
    }

    /// A run over `total` records with a fresh book.
    pub fn new(config: ArenaConfig, total: usize) -> (r: Self)
        requires
            config.n_levels > 0,
            config.book_capacity > 0,
            config.book_capacity < u32::MAX,
            config.n_levels <= i64::MAX,
            config.book_capacity * 2 <= usize::MAX,
            config.batch_size > 0,
            config.snapshot_every > 0,
            total < usize::MAX,
            config.snapshot_every == usize::MAX || total + config.snapshot_every <= usize::MAX,
        ensures
            r.wf(),
            r@ == (ArenaRunView {
                book: empty_book(config.n_levels as nat, config.book_capacity as nat),
                config,
                total: total as nat,
                processed: 0,
                trade_count: 0,
                trade_volume: 0,
                batch_trades: seq![],
                batch_start_seq: 0,
                next_snapshot_at: config.snapshot_every as nat,
                pending: None,
            }),
    {
        let book = OrderBook::new(config.n_levels, config.book_capacity);
        OrderArenaRun {
            book,
            config,
            total,
            processed: 0,
            trade_count: 0,
            trade_volume: 0,
            batch_trades: Vec::new(),
            batch_start_seq: 0,
            next_snapshot_at: config.snapshot_every,
            pending: None,
            trades_buf: Vec::new(),
        }
    }

    /// Records replayed so far.
    pub fn processed(&self) -> (r: usize)
        ensures
            r == self@.processed,
    {
        self.processed
    }

    /// Replays the next record.  A record of unknown type, a limit order
    /// off the book's levels, or one with no arena slot for its remainder
    /// is refused and changes nothing; any other record moves the run as
    /// `step_spec` says, handing out a batch at a batch boundary.
    pub fn step(&mut self, rec: &ParsedRecord) -> (r: Result<Option<OrderBatch>, RecordError>)
        requires
            old(self).wf(),
            old(self)@.processed < old(self)@.total,
        ensures
            final(self).wf(),
            rec.record_type > 2 ==> final(self)@ == old(self)@ && (r matches Err(
                RecordError::UnknownRecordType(m),
            ) && m@ == unknown_record_text(rec.record_type, old(self)@.processed as usize)),
            price_out_of_range(old(self)@.book, *rec) ==> final(self)@ == old(self)@ && r matches Err(
                RecordError::PriceOutOfRange,
            ),
            arena_full(old(self)@.book, *rec) ==> final(self)@ == old(self)@ && r matches Err(
                RecordError::ArenaFull,
            ),
            record_ok(old(self)@.book, *rec) ==> (r matches Ok(b) && (final(self)@, batch_opt_view(b))
                == step_spec(old(self)@, *rec)),
    {
        let seq = self.processed as u64;
        if rec.record_type > 2 {
            return Err(RecordError::UnknownRecordType(unknown_record_message(rec.record_type, self.processed)));
        }
        let side = side_of(rec.side);
        if rec.record_type == 0 {
            if rec.price_idx as usize >= self.book.n_levels() {
                return Err(RecordError::PriceOutOfRange);
            }
            if !self.book.room_for_limit(rec.order_id, side, rec.price_idx, rec.qty) {
                return Err(RecordError::ArenaFull);
            }
        }
        let ghost a = self@;
        self.trades_buf.clear();
        if rec.record_type == 0 {
            self.book.limit_order(rec.order_id, side, rec.price_idx, rec.qty, &mut self.trades_buf);
        } else if rec.record_type == 1 {
            self.book.cancel(rec.order_id);
        } else {
            self.book.market_order(rec.order_id, side, rec.qty, &mut self.trades_buf);
        }
        assert(self.trades_buf@ =~= apply_spec(a.book, *rec).1);
        let (c, v) = fold_trades(&self.trades_buf, seq, &mut self.batch_trades, self.trade_count, self.trade_volume);
        self.trade_count = c;
        self.trade_volume = v;
        self.processed = self.processed + 1;
        if self.processed >= self.next_snapshot_at {
            self.pending = Some(build_snapshot(&self.book, seq, self.config.depth_levels));
            self.next_snapshot_at = self.next_snapshot_at + self.config.snapshot_every;
        }
        if self.processed % self.config.batch_size == 0 || self.processed == self.total {
            let mut trades: Vec<ArenaTrade> = Vec::new();
            core::mem::swap(&mut trades, &mut self.batch_trades);
            let snapshot = self.pending.take();
            let b = OrderBatch { batch_start_seq: self.batch_start_seq, batch_end_seq: seq, trades, snapshot };
            self.batch_start_seq = seq + 1;
            Ok(Some(b))
        } else {
            Ok(None)
        }
    }

    /// The totals of the run so far, with the book's best levels.
    pub fn final_report(&self) -> (f: ArenaFinal)
        requires
            self.wf(),
        ensures
            f.order_count == self@.total,
            f.best_bid == (if self@.book.best_bid() >= 0 { self@.book.best_bid() as u32 } else { EMPTY_SENTINEL }),
            f.best_ask == (if self@.book.best_ask() < self@.book.n_levels {
                self@.book.best_ask() as u32
            } else {
                EMPTY_SENTINEL
            }),
            f.trade_count == self@.trade_count,
            f.trade_volume == self@.trade_volume,
    {
        let best_bid = match self.book.best_bid() {
            Some(b) => b,
            None => EMPTY_SENTINEL,
        };
        let best_ask = match self.book.best_ask() {
            Some(a) => a,
            None => EMPTY_SENTINEL,
        };
        ArenaFinal {
            order_count: self.total as u64,
            best_bid,
            best_ask,
            trade_count: self.trade_count,
            trade_volume: self.trade_volume,
        }
    }
}


/// Batches follow one another without gap or overlap: a batch starts where
/// the last one ended and ends at the record just replayed, and the next
/// one starts after it.  Every trade of the record joins the batch, and
/// the trade count grows by the number of trades (wrapping).
pub proof fn order_batches_are_contiguous(a: ArenaRunView, rec: ParsedRecord)
    requires
        a.processed < u64::MAX,
    ensures
        step_spec(a, rec).1 matches Some(b) ==> {
            &&& b.batch_start_seq == a.batch_start_seq
            &&& b.batch_end_seq == a.processed
            &&& step_spec(a, rec).0.batch_start_seq == a.processed + 1
            &&& b.trades == a.batch_trades + stamp(apply_spec(a.book, rec).1, a.processed as u64)
        },
        step_spec(a, rec).1 is None ==> {
            &&& step_spec(a, rec).0.batch_start_seq == a.batch_start_seq
            &&& step_spec(a, rec).0.batch_trades == a.batch_trades + stamp(
                apply_spec(a.book, rec).1,
                a.processed as u64,
            )
        },
        step_spec(a, rec).0.processed == a.processed + 1,
        step_spec(a, rec).0.trade_count == wrap64(a.trade_count + apply_spec(a.book, rec).1.len()),
{
}

/// The snapshot a step leaves is the freshest one: when a snapshot falls
/// due at the record just replayed, the batch handed out (or, between
/// batches, the snapshot waiting for the next one) is the snapshot of the
/// book after that record, numbered with it, whatever snapshot was waiting
/// before; when none falls due, the one waiting is carried on unchanged.
pub proof fn batch_snapshot_is_the_latest_due(a: ArenaRunView, rec: ParsedRecord)
    ensures
        ({
            let after = apply_spec(a.book, rec).0;
            let fresh = SnapshotView {
                seq: a.processed as u64,
                bids: top_levels_spec(after, Side::Buy, a.config.depth_levels as nat),
                asks: top_levels_spec(after, Side::Sell, a.config.depth_levels as nat),
            };
            let carried = if a.processed + 1 >= a.next_snapshot_at { Some(fresh) } else { a.pending };
            &&& step_spec(a, rec).0.book == after
            &&& step_spec(a, rec).1 matches Some(b) ==> b.snapshot == carried && step_spec(a, rec).0.pending is None
            &&& step_spec(a, rec).1 is None ==> step_spec(a, rec).0.pending == carried
            &&& step_spec(a, rec).0.next_snapshot_at == (if a.processed + 1 >= a.next_snapshot_at {
                a.next_snapshot_at + a.config.snapshot_every
            } else {
                a.next_snapshot_at as int
            })
            &&& (step_spec(a, rec).1 is Some) <==> (((a.processed + 1) as int) % (a.config.batch_size as int) == 0
                || a.processed + 1 == a.total)
        }),
{
}

} // verus!
