//! The payment authorisation arena: a binary flow of 32-byte transaction
//! records is scored one by one, with decisions reported in batches and
//! counted per outcome.
use vstd::prelude::*;
use crate::strings::{decimal, push_decimal, push_str};
use crate::payment_auth::{
    Transaction, RuleLimits, FraudDecision, Decision, RECORD_LEN, score, risk_score_spec,
    decision_for, reason_mask_spec, severity,
};

verus! {

/// The error text for a transaction count that does not match the flow's
/// length.
pub open spec fn transaction_count_mismatch_text(count: usize, record_len: usize, flow_len: usize) -> Seq<char> {
    "transaction_count ("@ + decimal(count as nat) + ") does not match transaction_flow.len()/"@ + decimal(
        record_len as nat,
    ) + " (got "@ + decimal(flow_len as nat) + " bytes)"@
}

fn transaction_count_mismatch_message(count: usize, record_len: usize, flow_len: usize) -> (s: String)
    ensures
        s@ == transaction_count_mismatch_text(count, record_len, flow_len),
{
    let mut s = String::new();
    push_str(&mut s, "transaction_count (");
    push_decimal(&mut s, count as u64);
    push_str(&mut s, ") does not match transaction_flow.len()/");
    push_decimal(&mut s, record_len as u64);
    push_str(&mut s, " (got ");
    push_decimal(&mut s, flow_len as u64);
    push_str(&mut s, " bytes)");
    s
}

/// The count a request names, a negative one read as zero.
pub open spec fn requested_count(count: i32) -> int {
    if count < 0 { 0 } else { count as int }
}

/// Checks a request's transaction count against its flow: the count,
/// negative read as zero, times 32 must be the flow's length.
pub fn check_transaction_count(transaction_count: i32, flow_len: usize) -> (r: Result<usize, String>)
    ensures
        r is Ok <==> requested_count(transaction_count) * 32 == flow_len,
        r matches Ok(c) ==> c == requested_count(transaction_count),
        r matches Err(e) ==> e@ == transaction_count_mismatch_text(
            requested_count(transaction_count) as usize,
            RECORD_LEN,
            flow_len,
        ),
{
    let count: usize = if transaction_count < 0 { 0 } else { transaction_count as usize };
    match count.checked_mul(RECORD_LEN) {
        Some(len) => {
            if len == flow_len {
                Ok(count)
            } else {
                Err(transaction_count_mismatch_message(count, RECORD_LEN, flow_len))
            }
        },
        None => Err(transaction_count_mismatch_message(count, RECORD_LEN, flow_len)),
    }
}

/// A requested limit, or the default where it is zero.
pub open spec fn limit_or(x: u32, default: u32) -> u32 {
    if x > 0 { x } else { default }
}

/// The rule limits a request asks for: each one left at zero takes its
/// default (5 payments an hour, 500 km, 50 000 cents).
pub fn rule_limits(velocity_limit: u32, geo_delta_limit_km: u32, amount_limit_cents: u32) -> (l: RuleLimits)
    ensures
        l.velocity_limit == limit_or(velocity_limit, 5),
        l.geo_delta_limit_km == limit_or(geo_delta_limit_km, 500),
        l.amount_limit_cents == limit_or(amount_limit_cents, 50_000),
{
    RuleLimits {
        velocity_limit: if velocity_limit > 0 { velocity_limit } else { 5 },
        geo_delta_limit_km: if geo_delta_limit_km > 0 { geo_delta_limit_km } else { 500 },
        amount_limit_cents: if amount_limit_cents > 0 { amount_limit_cents } else { 50_000 },
    }
}

/// The batch size a request asks for, 1000 where it is not positive.
pub fn batch_size_or_default(batch_size: i32) -> (n: usize)
    ensures
        n == (if batch_size > 0 { batch_size as usize } else { 1000 }),
{
    if batch_size > 0 {
        batch_size as usize
    } else {
        1000
    }
}

/// The decision `score` reaches for a transaction.
pub open spec fn fraud_decision_spec(tx: Transaction, l: RuleLimits) -> FraudDecision {
    FraudDecision {
        seq: tx.seq,
        risk_score: risk_score_spec(tx, l),
        decision: decision_for(risk_score_spec(tx, l)),
        reason_mask: reason_mask_spec(tx, l),
    }
}

/// What the arena reports at a batch boundary.
pub struct DecisionBatch {
    pub batch_start_seq: u64,
    pub batch_end_seq: u64,
    pub decisions: Vec<FraudDecision>,
}

pub struct DecisionBatchView {
    pub batch_start_seq: u64,
    pub batch_end_seq: u64,
    pub decisions: Seq<FraudDecision>,
}

impl View for DecisionBatch {
    type V = DecisionBatchView;

    open spec fn view(&self) -> DecisionBatchView {
        DecisionBatchView {
            batch_start_seq: self.batch_start_seq,
            batch_end_seq: self.batch_end_seq,
            decisions: self.decisions@,
        }
    }
}

pub open spec fn decision_batch_opt_view(b: Option<DecisionBatch>) -> Option<DecisionBatchView> {
    match b {
        Some(x) => Some(x@),
        None => None,
    }
}

pub struct PaymentRunView {
    pub limits: RuleLimits,
    pub batch_size: usize,
    /// Transactions in the flow.
    pub total: nat,
    /// Transactions scored so far.
    pub processed: nat,
    pub approve_count: u64,
    pub review_count: u64,
    pub decline_count: u64,
    /// Decisions since the last batch.
    pub batch: Seq<FraudDecision>,
    /// The number of the first transaction of the open batch.
    pub batch_start_seq: u64,
}

/// One transaction scored: its decision joins the open batch and is
/// counted under its outcome, and at a batch boundary (every `batch_size`
/// transactions, and after the last) the batch is handed out and a new one
/// opened.
pub open spec fn payment_step_spec(a: PaymentRunView, tx: Transaction) -> (PaymentRunView, Option<DecisionBatchView>) {
    let d = fraud_decision_spec(tx, a.limits);
    let processed: nat = a.processed + 1;
    let batch = a.batch.push(d);
    let counted = PaymentRunView {
        processed,
        approve_count: if d.decision == Decision::Approve { (a.approve_count + 1) as u64 } else { a.approve_count },
        review_count: if d.decision == Decision::Review { (a.review_count + 1) as u64 } else { a.review_count },
        decline_count: if d.decision == Decision::Decline { (a.decline_count + 1) as u64 } else { a.decline_count },
        ..a
    };
    if processed % (a.batch_size as nat) == 0 || processed == a.total {
        (
            PaymentRunView { batch: seq![], batch_start_seq: processed as u64, ..counted },
            Some(DecisionBatchView {
                batch_start_seq: a.batch_start_seq,
                batch_end_seq: (processed - 1) as u64,
                decisions: batch,
            }),
        )
    } else {
        (PaymentRunView { batch, ..counted }, None)
    }
}

/// One scoring pass over a transaction flow.
pub struct PaymentArenaRun {
    limits: RuleLimits,
    batch_size: usize,
    total: usize,
    processed: usize,
    approve_count: u64,
    review_count: u64,
    decline_count: u64,
    batch: Vec<FraudDecision>,
    batch_start_seq: u64,
}

impl View for PaymentArenaRun {
    type V = PaymentRunView;

    closed spec fn view(&self) -> PaymentRunView {
        PaymentRunView {
            limits: self.limits,
            batch_size: self.batch_size,
            total: self.total as nat,
            processed: self.processed as nat,
            approve_count: self.approve_count,
            review_count: self.review_count,
            decline_count: self.decline_count,
            batch: self.batch@,
            batch_start_seq: self.batch_start_seq,
        }
    }
}

impl PaymentArenaRun {
    /// The run's invariant: a positive batch size, and every scored
    /// transaction counted under exactly one outcome.
    pub closed spec fn wf(&self) -> bool {
        &&& self.batch_size > 0
        &&& self.processed <= self.total
        &&& self.approve_count + self.review_count + self.decline_count == self.processed
        &&& self.batch_start_seq <= self.processed
    }

    /// A run over `total` transactions.
    pub fn new(limits: RuleLimits, batch_size: usize, total: usize) -> (r: Self)
        requires
            batch_size > 0,
        ensures
            r.wf(),
            r@ == (PaymentRunView {
                limits,
                batch_size,
                total: total as nat,
                processed: 0,
                approve_count: 0,
                review_count: 0,
                decline_count: 0,
                batch: seq![],
                batch_start_seq: 0,
            }),
    {
        PaymentArenaRun {
            limits,
            batch_size,
            total,
            processed: 0,
            approve_count: 0,
            review_count: 0,
            decline_count: 0,
            batch: Vec::new(),
            batch_start_seq: 0,
        }
    }

    /// Scores the next transaction; a batch comes out at a batch boundary.
    pub fn step(&mut self, tx: &Transaction) -> (r: Option<DecisionBatch>)
        requires
            old(self).wf(),
            old(self)@.processed < old(self)@.total,
        ensures
            final(self).wf(),
            (final(self)@, decision_batch_opt_view(r)) == payment_step_spec(old(self)@, *tx),
    {
        let d = score(tx, &self.limits);
        match d.decision {
            Decision::Approve => {
                self.approve_count = self.approve_count + 1;
            },
            Decision::Review => {
                self.review_count = self.review_count + 1;
            },
            Decision::Decline => {
                self.decline_count = self.decline_count + 1;
            },
        }
        self.batch.push(d);
        self.processed = self.processed + 1;
        if self.processed % self.batch_size == 0 || self.processed == self.total {
            let mut decisions: Vec<FraudDecision> = Vec::new();
            core::mem::swap(&mut decisions, &mut self.batch);
            let b = DecisionBatch {
                batch_start_seq: self.batch_start_seq,
                batch_end_seq: (self.processed - 1) as u64,
                decisions,
            };
            self.batch_start_seq = self.processed as u64;
            Some(b)
        } else {
            None
        }
    }

    /// Transactions in the flow, and how many of them were approved, sent
    /// to review and declined so far.
    pub fn counts(&self) -> (r: (u64, u64, u64, u64))
        ensures
            r == (self@.total as u64, self@.approve_count, self@.review_count, self@.decline_count),
    {
        (self.total as u64, self.approve_count, self.review_count, self.decline_count)
    }
}


/// The wire code of a decision, the engine's own numbering: approve 0,
/// review 1, decline 2.
pub fn to_proto_decision(d: Decision) -> (code: i32)
    ensures
        code == severity(d),
{
    match d {
        Decision::Approve => 0,
        Decision::Review => 1,
        Decision::Decline => 2,
    }
}

/// Every transaction scored so far is counted under exactly one outcome.
pub proof fn outcomes_cover_every_transaction(run: &PaymentArenaRun)
    requires
        run.wf(),
    ensures
        run@.approve_count + run@.review_count + run@.decline_count == run@.processed,
{
}

/// Batches follow one another without gap or overlap: a batch starts where
/// the last one ended and ends at the transaction just scored, and the
/// next one starts after it.
pub proof fn payment_batches_are_contiguous(a: PaymentRunView, tx: Transaction)
    requires
        a.processed < u64::MAX,
    ensures
        payment_step_spec(a, tx).1 matches Some(b) ==> {
            &&& b.batch_start_seq == a.batch_start_seq
            &&& b.batch_end_seq == a.processed
            &&& payment_step_spec(a, tx).0.batch_start_seq == a.processed + 1
        },
        payment_step_spec(a, tx).1 is None ==> payment_step_spec(a, tx).0.batch_start_seq == a.batch_start_seq,
        payment_step_spec(a, tx).0.processed == a.processed + 1,
        (payment_step_spec(a, tx).1 is Some) <==> (((a.processed + 1) as int) % (a.batch_size as int) == 0
            || a.processed + 1 == a.total),
{
}

/// The decision a step scores, as the run hands it out: the last decision
/// of the batch handed out, or of the open batch when none is.
pub open spec fn last_decision(r: (PaymentRunView, Option<DecisionBatchView>)) -> FraudDecision {
    match r.1 {
        Some(b) => b.decisions.last(),
        None => r.0.batch.last(),
    }
}

/// Each step counts its transaction under exactly the outcome it was
/// decided: the approve, review or decline counter grows by one when the
/// new decision is approve, review or decline, and the other two stay.
/// That decision is the transaction's, scored under the run's limits, and
/// a score of 700 or more is a decline, 300 or more a review, anything
/// lower an approval.
pub proof fn each_step_counts_its_decision(a: PaymentRunView, tx: Transaction)
    requires
        a.approve_count < u64::MAX,
        a.review_count < u64::MAX,
        a.decline_count < u64::MAX,
    ensures
        ({
            let r = payment_step_spec(a, tx);
            let d = last_decision(r);
            &&& d.seq == tx.seq
            &&& d.risk_score == risk_score_spec(tx, a.limits)
            &&& (d.decision == Decision::Decline) <==> d.risk_score >= 700
            &&& (d.decision == Decision::Review) <==> (300 <= d.risk_score && d.risk_score < 700)
            &&& (d.decision == Decision::Approve) <==> d.risk_score < 300
            &&& r.0.approve_count == a.approve_count + (if d.decision == Decision::Approve { 1int } else { 0int })
            &&& r.0.review_count == a.review_count + (if d.decision == Decision::Review { 1int } else { 0int })
            &&& r.0.decline_count == a.decline_count + (if d.decision == Decision::Decline { 1int } else { 0int })
        }),
{
    let r = payment_step_spec(a, tx);
    let d = fraud_decision_spec(tx, a.limits);
    assert(a.batch.push(d).last() == d);
    assert(last_decision(r) == d);
}

} // verus!
