//! Deterministic fraud-scoring rule engine for the payment authorisation
//! arena.
//!
//! The rules are pure integer arithmetic, so every implementation fed the
//! same 32-byte transaction records reaches byte-identical decisions.
use vstd::prelude::*;
use vstd::bytes::{
    spec_u16_from_le_bytes, spec_u32_from_le_bytes, spec_u64_from_le_bytes, u16_from_le_bytes,
    u32_from_le_bytes, u64_from_le_bytes, spec_u16_to_le_bytes, spec_u32_to_le_bytes,
    spec_u64_to_le_bytes, lemma_auto_spec_u16_to_from_le_bytes,
    lemma_auto_spec_u32_to_from_le_bytes, lemma_auto_spec_u64_to_from_le_bytes,
};
use vstd::slice::slice_subrange;
use crate::strings::{decimal, push_decimal, push_str};

verus! {

/// Length in bytes of one transaction record on the wire.
pub const RECORD_LEN: usize = 32;

/// Fixed-point transaction record decoded from the shared 32-byte format.
#[derive(Clone, Copy, Debug)]
pub struct Transaction {
    pub seq: u64,
    pub account_id: u64,
    pub amount_cents: u32,
    /// Merchant category code (MCC).
    pub merchant_category: u32,
    pub country_code: u16,
    pub geo_delta_km: u16,
    pub velocity_1h: u16,
    /// 0 = card present, 1 = online (card not present), 2 = ATM.
    pub channel: u8,
}

#[derive(Clone, Copy, PartialEq, Eq, Debug, Structural)]
pub enum Decision {
    Approve,
    Review,
    Decline,
}

#[derive(Clone, Copy, Debug)]
pub struct FraudDecision {
    pub seq: u64,
    pub risk_score: u32,
    pub decision: Decision,
    pub reason_mask: u32,
}

pub const REASON_VELOCITY: u32 = 1;
pub const REASON_GEO_JUMP: u32 = 2;
pub const REASON_HIGH_AMOUNT: u32 = 4;
pub const REASON_RISKY_MCC: u32 = 8;
pub const REASON_CNP_HIGH_VALUE: u32 = 16;

#[derive(Clone, Copy, Debug)]
pub struct RuleLimits {
    pub velocity_limit: u32,
    pub geo_delta_limit_km: u32,
    pub amount_limit_cents: u32,
}

// ---------------------------------------------------------------------
//  The rule set, stated
// ---------------------------------------------------------------------

/// High-risk merchant categories: crypto exchange, gambling, cash
/// advance, wire transfer.
pub open spec fn is_risky_mcc_spec(mcc: u32) -> bool {
    mcc == 6051 || mcc == 7995 || mcc == 6011 || mcc == 4829
}

pub open spec fn velocity_rule(tx: Transaction, l: RuleLimits) -> bool {
    tx.velocity_1h as u32 > l.velocity_limit
}

pub open spec fn geo_rule(tx: Transaction, l: RuleLimits) -> bool {
    tx.geo_delta_km as u32 > l.geo_delta_limit_km
}

pub open spec fn amount_rule(tx: Transaction, l: RuleLimits) -> bool {
    tx.amount_cents > l.amount_limit_cents
}

pub open spec fn mcc_rule(tx: Transaction) -> bool {
    is_risky_mcc_spec(tx.merchant_category)
}

/// An online payment above half the amount limit.
pub open spec fn cnp_rule(tx: Transaction, l: RuleLimits) -> bool {
    tx.channel == 1 && tx.amount_cents > l.amount_limit_cents / 2
}

/// The weighted sum of the rules that fire, before capping.
pub open spec fn raw_points(tx: Transaction, l: RuleLimits) -> int {
    (if velocity_rule(tx, l) { 400int } else { 0 }) + (if geo_rule(tx, l) { 400int } else { 0 })
        + (if amount_rule(tx, l) { 300int } else { 0 }) + (if mcc_rule(tx) { 350int } else { 0 })
        + (if cnp_rule(tx, l) { 300int } else { 0 })
}

/// The risk score: the weighted sum capped at 1000.
pub open spec fn risk_score_spec(tx: Transaction, l: RuleLimits) -> u32 {
    if raw_points(tx, l) > 1000 { 1000 } else { raw_points(tx, l) as u32 }
}

/// One bit per rule that fired.
pub open spec fn reason_mask_spec(tx: Transaction, l: RuleLimits) -> u32 {
    ((if velocity_rule(tx, l) { REASON_VELOCITY } else { 0 }) + (if geo_rule(tx, l) {
        REASON_GEO_JUMP
    } else {
        0
    }) + (if amount_rule(tx, l) { REASON_HIGH_AMOUNT } else { 0 }) + (if mcc_rule(tx) {
        REASON_RISKY_MCC
    } else {
        0
    }) + (if cnp_rule(tx, l) { REASON_CNP_HIGH_VALUE } else { 0 })) as u32
}

/// `>= 700` declines, `>= 300` goes to review, anything lower approves.
pub open spec fn decision_for(risk_score: u32) -> Decision {
    if risk_score >= 700 {
        Decision::Decline
    } else if risk_score >= 300 {
        Decision::Review
    } else {
        Decision::Approve
    }
}

fn is_risky_mcc(mcc: u32) -> (r: bool)
    ensures
        r == is_risky_mcc_spec(mcc),
{
    mcc == 6051 || mcc == 7995 || mcc == 6011 || mcc == 4829
}

proof fn lemma_or_fresh_bits(m: u32)
    ensures
        m < 1 ==> m | 1 == m + 1,
        m < 2 ==> m | 2 == m + 2,
        m < 4 ==> m | 4 == m + 4,
        m < 8 ==> m | 8 == m + 8,
        m < 16 ==> m | 16 == m + 16,
{
    assert(m < 1 ==> m | 1 == m + 1) by (bit_vector);
    assert(m < 2 ==> m | 2 == m + 2) by (bit_vector);
    assert(m < 4 ==> m | 4 == m + 4) by (bit_vector);
    assert(m < 8 ==> m | 8 == m + 8) by (bit_vector);
    assert(m < 16 ==> m | 16 == m + 16) by (bit_vector);
}

/// Scores one transaction against the fixed rule set: a weighted sum of the
/// rules that fire, capped at 1000, and the decision that score falls in.
pub fn score(tx: &Transaction, limits: &RuleLimits) -> (d: FraudDecision)
    ensures
        d.seq == tx.seq,
        d.risk_score == risk_score_spec(*tx, *limits),
        d.decision == decision_for(d.risk_score),
        d.reason_mask == reason_mask_spec(*tx, *limits),
{
    let mut reason_mask = 0u32;
    let mut score: u32 = 0;

    if (tx.velocity_1h as u32) > limits.velocity_limit {
        proof { lemma_or_fresh_bits(reason_mask); }
        reason_mask = reason_mask | REASON_VELOCITY;
        score = score + 400;
    }
    if (tx.geo_delta_km as u32) > limits.geo_delta_limit_km {
        proof { lemma_or_fresh_bits(reason_mask); }
        reason_mask = reason_mask | REASON_GEO_JUMP;
        score = score + 400;
    }
    if tx.amount_cents > limits.amount_limit_cents {
        proof { lemma_or_fresh_bits(reason_mask); }
        reason_mask = reason_mask | REASON_HIGH_AMOUNT;
        score = score + 300;
    }
    if is_risky_mcc(tx.merchant_category) {
        proof { lemma_or_fresh_bits(reason_mask); }
        reason_mask = reason_mask | REASON_RISKY_MCC;
        score = score + 350;
    }
    if tx.channel == 1 && tx.amount_cents > limits.amount_limit_cents / 2 {
        proof { lemma_or_fresh_bits(reason_mask); }
        reason_mask = reason_mask | REASON_CNP_HIGH_VALUE;
        score = score + 300;
    }

    let risk_score = if score > 1000 { 1000 } else { score };
    let decision = if risk_score >= 700 {
        Decision::Decline
    } else if risk_score >= 300 {
        Decision::Review
    } else {
        Decision::Approve
    };

    FraudDecision { seq: tx.seq, risk_score, decision, reason_mask }
}

// ---------------------------------------------------------------------
//  Wire format
// ---------------------------------------------------------------------

/// The transaction encoded in one 32-byte record: little-endian fields at
/// offsets 0 (seq), 8 (account), 16 (amount), 20 (MCC), 24 (country),
/// 26 (geo delta), 28 (velocity) and the channel byte at 30; byte 31 is
/// padding.
pub open spec fn decode_transaction(r: Seq<u8>) -> Transaction {
    Transaction {
        seq: spec_u64_from_le_bytes(r.subrange(0, 8)),
        account_id: spec_u64_from_le_bytes(r.subrange(8, 16)),
        amount_cents: spec_u32_from_le_bytes(r.subrange(16, 20)),
        merchant_category: spec_u32_from_le_bytes(r.subrange(20, 24)),
        country_code: spec_u16_from_le_bytes(r.subrange(24, 26)),
        geo_delta_km: spec_u16_from_le_bytes(r.subrange(26, 28)),
        velocity_1h: spec_u16_from_le_bytes(r.subrange(28, 30)),
        channel: r[30],
    }
}

/// The `i`-th record of a buffer.
pub open spec fn record_at(buf: Seq<u8>, i: int) -> Seq<u8> {
    buf.subrange(i * 32, i * 32 + 32)
}

/// The error text for a transaction flow whose length is not a whole number
/// of records.
pub open spec fn misaligned_flow_text(len: usize, record_len: usize) -> Seq<char> {
    "transaction_flow length "@ + decimal(len as nat) + " is not a multiple of "@ + decimal(record_len as nat)
}

fn misaligned_flow_message(len: usize, record_len: usize) -> (s: String)
    ensures
        s@ == misaligned_flow_text(len, record_len),
{
    let mut s = String::new();
    push_str(&mut s, "transaction_flow length ");
    push_decimal(&mut s, len as u64);
    push_str(&mut s, " is not a multiple of ");
    push_decimal(&mut s, record_len as u64);
    s
}

/// Decodes a buffer of back-to-back 32-byte records; a buffer whose length
/// is not a multiple of 32 is refused.
pub fn parse_records(buf: &[u8]) -> (res: Result<Vec<Transaction>, String>)
    ensures
        res is Ok <==> buf@.len() % 32 == 0,
        res matches Err(e) ==> e@ == misaligned_flow_text(buf@.len() as usize, RECORD_LEN),
        res matches Ok(v) ==> {
            &&& v@.len() == buf@.len() / 32
            &&& forall|i: int|
                0 <= i < v@.len() ==> #[trigger] v@[i] == decode_transaction(record_at(buf@, i))
        },
{
    if buf.len() % RECORD_LEN != 0 {
        return Err(misaligned_flow_message(buf.len(), RECORD_LEN));
    }
    let len = buf.len();
    let n = len / RECORD_LEN;
    let mut out: Vec<Transaction> = Vec::with_capacity(n);
    let mut i: usize = 0;
    while i < n
        invariant
            len == buf@.len(),
            n == len / 32,
            len % 32 == 0,
            i <= n,
            out@.len() == i,
            forall|j: int| 0 <= j < i ==> #[trigger] out@[j] == decode_transaction(record_at(buf@, j)),
        decreases n - i,
    {
        assert(i * 32 + 32 <= len) by (nonlinear_arith)
            requires
                i < n,
                n == len / 32,
        ;
        let off = i * RECORD_LEN;
        let rec = slice_subrange(buf, off, off + RECORD_LEN);
        assert(rec@ == record_at(buf@, i as int));
        let t = Transaction {
            seq: u64_from_le_bytes(slice_subrange(rec, 0, 8)),
            account_id: u64_from_le_bytes(slice_subrange(rec, 8, 16)),
            amount_cents: u32_from_le_bytes(slice_subrange(rec, 16, 20)),
            merchant_category: u32_from_le_bytes(slice_subrange(rec, 20, 24)),
            country_code: u16_from_le_bytes(slice_subrange(rec, 24, 26)),
            geo_delta_km: u16_from_le_bytes(slice_subrange(rec, 26, 28)),
            velocity_1h: u16_from_le_bytes(slice_subrange(rec, 28, 30)),
            channel: rec[30],
        };
        out.push(t);
        i = i + 1;
    }
    Ok(out)
}


// ---------------------------------------------------------------------
//  Laws
// ---------------------------------------------------------------------

/// The record written for a transaction: its fields little-endian at the
/// offsets `decode_transaction` reads, and a zero padding byte.
pub open spec fn encode_transaction(t: Transaction) -> Seq<u8> {
    spec_u64_to_le_bytes(t.seq) + spec_u64_to_le_bytes(t.account_id) + spec_u32_to_le_bytes(
        t.amount_cents,
    ) + spec_u32_to_le_bytes(t.merchant_category) + spec_u16_to_le_bytes(t.country_code)
        + spec_u16_to_le_bytes(t.geo_delta_km) + spec_u16_to_le_bytes(t.velocity_1h) + seq![
        t.channel,
        0u8,
    ]
}

/// The records of a sequence of transactions, back to back.
pub open spec fn encode_all(ts: Seq<Transaction>) -> Seq<u8>
    decreases ts.len(),
{
    if ts.len() == 0 {
        seq![]
    } else {
        encode_all(ts.drop_last()) + encode_transaction(ts.last())
    }
}

/// A record is 32 bytes, and decoding the record written for a
/// transaction gives that transaction back.
pub proof fn decode_inverts_encode(t: Transaction)
    ensures
        encode_transaction(t).len() == 32,
        decode_transaction(encode_transaction(t)) == t,
{
    lemma_auto_spec_u64_to_from_le_bytes();
    lemma_auto_spec_u32_to_from_le_bytes();
    lemma_auto_spec_u16_to_from_le_bytes();
    let r = encode_transaction(t);
    assert(r.subrange(0, 8) =~= spec_u64_to_le_bytes(t.seq));
    assert(r.subrange(8, 16) =~= spec_u64_to_le_bytes(t.account_id));
    assert(r.subrange(16, 20) =~= spec_u32_to_le_bytes(t.amount_cents));
    assert(r.subrange(20, 24) =~= spec_u32_to_le_bytes(t.merchant_category));
    assert(r.subrange(24, 26) =~= spec_u16_to_le_bytes(t.country_code));
    assert(r.subrange(26, 28) =~= spec_u16_to_le_bytes(t.geo_delta_km));
    assert(r.subrange(28, 30) =~= spec_u16_to_le_bytes(t.velocity_1h));
}

/// The records of `ts` back to back are `32 * |ts|` bytes, and record `i`
/// of them decodes to `ts[i]`: so `parse_records` on them returns `ts`.
pub proof fn parse_inverts_encode_all(ts: Seq<Transaction>)
    ensures
        encode_all(ts).len() == 32 * ts.len(),
        forall|i: int| 0 <= i < ts.len() ==> decode_transaction(#[trigger] record_at(encode_all(ts), i)) == ts[i],
    decreases ts.len(),
{
    if ts.len() > 0 {
        let p = ts.drop_last();
        parse_inverts_encode_all(p);
        decode_inverts_encode(ts.last());
        let b = encode_all(ts);
        assert forall|i: int| 0 <= i < ts.len() implies decode_transaction(#[trigger] record_at(b, i)) == ts[i] by {
            if i < p.len() {
                assert(record_at(b, i) =~= record_at(encode_all(p), i)) by (nonlinear_arith)
                    requires
                        b == encode_all(p) + encode_transaction(ts.last()),
                        encode_all(p).len() == 32 * p.len(),
                        0 <= i < p.len(),
                ;
                assert(ts[i] == p[i]);
            } else {
                assert(record_at(b, i) =~= encode_transaction(ts.last()));
            }
        }
    }
}

/// The score never exceeds 1000.
pub proof fn risk_score_is_capped(tx: Transaction, l: RuleLimits)
    ensures
        risk_score_spec(tx, l) <= 1000,
{
}

/// Each reason bit is set exactly when its rule fires.
pub proof fn reason_bits_name_the_rules(tx: Transaction, l: RuleLimits)
    ensures
        (reason_mask_spec(tx, l) & REASON_VELOCITY != 0) == velocity_rule(tx, l),
        (reason_mask_spec(tx, l) & REASON_GEO_JUMP != 0) == geo_rule(tx, l),
        (reason_mask_spec(tx, l) & REASON_HIGH_AMOUNT != 0) == amount_rule(tx, l),
        (reason_mask_spec(tx, l) & REASON_RISKY_MCC != 0) == mcc_rule(tx),
        (reason_mask_spec(tx, l) & REASON_CNP_HIGH_VALUE != 0) == cnp_rule(tx, l),
        reason_mask_spec(tx, l) < 32,
{
    let a = velocity_rule(tx, l);
    let b = geo_rule(tx, l);
    let c = amount_rule(tx, l);
    let d = mcc_rule(tx);
    let e = cnp_rule(tx, l);
    let m: u32 = reason_mask_spec(tx, l);
    assert(m == (if a { 1u32 } else { 0 }) + (if b { 2u32 } else { 0 }) + (if c { 4u32 } else { 0 }) + (if d {
        8u32
    } else {
        0
    }) + (if e { 16u32 } else { 0 }));
    assert({
        &&& (m & 1 != 0) == a
        &&& (m & 2 != 0) == b
        &&& (m & 4 != 0) == c
        &&& (m & 8 != 0) == d
        &&& (m & 16 != 0) == e
        &&& m < 32
    }) by (bit_vector)
        requires
            m == (if a { 1u32 } else { 0 }) + (if b { 2u32 } else { 0 }) + (if c { 4u32 } else { 0 }) + (if d {
                8u32
            } else {
                0
            }) + (if e { 16u32 } else { 0 }),
    ;
}

/// How severe a decision is: approve, review, decline in rising order.
pub open spec fn severity(d: Decision) -> int {
    match d {
        Decision::Approve => 0,
        Decision::Review => 1,
        Decision::Decline => 2,
    }
}

/// A higher score never gets a milder decision.
pub proof fn decision_is_monotone(s1: u32, s2: u32)
    requires
        s1 <= s2,
    ensures
        severity(decision_for(s1)) <= severity(decision_for(s2)),
{
}

/// A transaction that sets off every rule another one does scores at least
/// as high.
pub proof fn more_rules_never_score_lower(t1: Transaction, t2: Transaction, l: RuleLimits)
    requires
        velocity_rule(t1, l) ==> velocity_rule(t2, l),
        geo_rule(t1, l) ==> geo_rule(t2, l),
        amount_rule(t1, l) ==> amount_rule(t2, l),
        mcc_rule(t1) ==> mcc_rule(t2),
        cnp_rule(t1, l) ==> cnp_rule(t2, l),
    ensures
        risk_score_spec(t1, l) <= risk_score_spec(t2, l),
        severity(decision_for(risk_score_spec(t1, l))) <= severity(decision_for(risk_score_spec(t2, l))),
{
}

/// The risk score is the sum of fixed weights of the rules that fire,
/// capped at 1000: 400 for a one-hour velocity above its limit, 400 for a
/// geo jump beyond its limit, 300 for an amount above its limit, 350 for a
/// risky merchant category (6051, 7995, 6011, 4829), and 300 for an online
/// payment above half the amount limit.  A score of 700 or more declines,
/// 300 or more goes to review, anything lower approves, and the reason
/// mask adds 1, 2, 4, 8 and 16 for those rules.
pub proof fn score_is_the_capped_weighted_sum(tx: Transaction, l: RuleLimits)
    ensures
        ({
            let raw = (if tx.velocity_1h as int > l.velocity_limit as int { 400int } else { 0int })
                + (if tx.geo_delta_km as int > l.geo_delta_limit_km as int { 400int } else { 0int })
                + (if tx.amount_cents as int > l.amount_limit_cents as int { 300int } else { 0int })
                + (if tx.merchant_category == 6051 || tx.merchant_category == 7995
                    || tx.merchant_category == 6011 || tx.merchant_category == 4829 { 350int } else { 0int })
                + (if tx.channel == 1 && tx.amount_cents as int > (l.amount_limit_cents as int) / 2 {
                    300int
                } else {
                    0int
                });
            risk_score_spec(tx, l) as int == (if raw > 1000 { 1000 } else { raw })
        }),
        ({
            let mask = (if tx.velocity_1h as int > l.velocity_limit as int { 1int } else { 0int })
                + (if tx.geo_delta_km as int > l.geo_delta_limit_km as int { 2int } else { 0int })
                + (if tx.amount_cents as int > l.amount_limit_cents as int { 4int } else { 0int })
                + (if tx.merchant_category == 6051 || tx.merchant_category == 7995
                    || tx.merchant_category == 6011 || tx.merchant_category == 4829 { 8int } else { 0int })
                + (if tx.channel == 1 && tx.amount_cents as int > (l.amount_limit_cents as int) / 2 {
                    16int
                } else {
                    0int
                });
            reason_mask_spec(tx, l) as int == mask
        }),
        (decision_for(risk_score_spec(tx, l)) == Decision::Decline) <==> risk_score_spec(tx, l) >= 700,
        (decision_for(risk_score_spec(tx, l)) == Decision::Review) <==> (300 <= risk_score_spec(tx, l)
            && risk_score_spec(tx, l) < 700),
        (decision_for(risk_score_spec(tx, l)) == Decision::Approve) <==> risk_score_spec(tx, l) < 300,
{
}

/// A transaction that sets off only the geo-jump rule scores exactly 400
/// and goes to review; with an online payment above half the amount limit
/// besides, it scores 700 and is declined.
pub proof fn geo_jump_weighs_four_hundred(tx: Transaction, l: RuleLimits)
    requires
        tx.geo_delta_km as int > l.geo_delta_limit_km as int,
        tx.velocity_1h as int <= l.velocity_limit as int,
        tx.amount_cents as int <= l.amount_limit_cents as int,
        !(tx.merchant_category == 6051 || tx.merchant_category == 7995 || tx.merchant_category == 6011
            || tx.merchant_category == 4829),
    ensures
        !(tx.channel == 1 && tx.amount_cents as int > (l.amount_limit_cents as int) / 2) ==> risk_score_spec(tx, l) == 400
            && decision_for(risk_score_spec(tx, l)) == Decision::Review,
        (tx.channel == 1 && tx.amount_cents as int > (l.amount_limit_cents as int) / 2) ==> risk_score_spec(tx, l) == 700
            && decision_for(risk_score_spec(tx, l)) == Decision::Decline,
{
}

} // verus!
