use tokimeki_quant_rust::payment_auth::{
    parse_records, score, Decision, RuleLimits, Transaction, RECORD_LEN, REASON_CNP_HIGH_VALUE,
    REASON_GEO_JUMP, REASON_HIGH_AMOUNT, REASON_RISKY_MCC, REASON_VELOCITY,
};

fn limits() -> RuleLimits {
    RuleLimits { velocity_limit: 5, geo_delta_limit_km: 500, amount_limit_cents: 50_000 }
}

#[test]
fn clean_transaction_approves() {
    let tx = Transaction {
        seq: 1,
        account_id: 42,
        amount_cents: 1_000,
        merchant_category: 5411, // grocery
        country_code: 1,
        geo_delta_km: 5,
        velocity_1h: 1,
        channel: 0,
    };
    let d = score(&tx, &limits());
    assert_eq!(d.decision, Decision::Approve);
    assert_eq!(d.reason_mask, 0);
}

#[test]
fn velocity_and_geo_jump_declines() {
    let tx = Transaction {
        seq: 2,
        account_id: 42,
        amount_cents: 1_000,
        merchant_category: 5411,
        country_code: 1,
        geo_delta_km: 900,
        velocity_1h: 10,
        channel: 0,
    };
    let d = score(&tx, &limits());
    assert_eq!(d.decision, Decision::Decline);
    assert_eq!(d.reason_mask, REASON_VELOCITY | REASON_GEO_JUMP);
}

#[test]
fn risky_mcc_alone_only_reviews() {
    let tx = Transaction {
        seq: 3,
        account_id: 42,
        amount_cents: 1_000,
        merchant_category: 6051, // crypto exchange
        country_code: 1,
        geo_delta_km: 5,
        velocity_1h: 1,
        channel: 0,
    };
    let d = score(&tx, &limits());
    assert_eq!(d.decision, Decision::Review);
    assert_eq!(d.reason_mask, REASON_RISKY_MCC);
}

#[test]
fn card_not_present_high_value_flags() {
    let tx = Transaction {
        seq: 4,
        account_id: 42,
        amount_cents: 40_000,
        merchant_category: 5411,
        country_code: 1,
        geo_delta_km: 5,
        velocity_1h: 1,
        channel: 1, // online
    };
    let d = score(&tx, &limits());
    assert_eq!(d.reason_mask, REASON_CNP_HIGH_VALUE);
    assert_eq!(d.decision, Decision::Review);
}

#[test]
fn parse_records_roundtrip() {
    let mut buf = Vec::new();
    buf.extend_from_slice(&7u64.to_le_bytes());
    buf.extend_from_slice(&99u64.to_le_bytes());
    buf.extend_from_slice(&12_345u32.to_le_bytes());
    buf.extend_from_slice(&5411u32.to_le_bytes());
    buf.extend_from_slice(&1u16.to_le_bytes());
    buf.extend_from_slice(&3u16.to_le_bytes());
    buf.extend_from_slice(&2u16.to_le_bytes());
    buf.push(0u8);
    buf.push(0u8); // pad to 32
    let recs = parse_records(&buf).unwrap();
    assert_eq!(recs.len(), 1);
    assert_eq!(recs[0].seq, 7);
    assert_eq!(recs[0].account_id, 99);
    assert_eq!(recs[0].amount_cents, 12_345);
}

#[test]
fn rejects_misaligned_buffer() {
    let buf = vec![0u8; RECORD_LEN - 1];
    assert!(parse_records(&buf).is_err());
}

fn encode(t: &Transaction) -> Vec<u8> {
    let mut buf = Vec::new();
    buf.extend_from_slice(&t.seq.to_le_bytes());
    buf.extend_from_slice(&t.account_id.to_le_bytes());
    buf.extend_from_slice(&t.amount_cents.to_le_bytes());
    buf.extend_from_slice(&t.merchant_category.to_le_bytes());
    buf.extend_from_slice(&t.country_code.to_le_bytes());
    buf.extend_from_slice(&t.geo_delta_km.to_le_bytes());
    buf.extend_from_slice(&t.velocity_1h.to_le_bytes());
    buf.push(t.channel);
    buf.push(0u8);
    buf
}

fn sample(seq: u64) -> Transaction {
    Transaction {
        seq,
        account_id: u64::MAX - seq,
        amount_cents: 0xDEAD_BEEF,
        merchant_category: 7995,
        country_code: 0xABCD,
        geo_delta_km: 901,
        velocity_1h: 65_535,
        channel: 2,
    }
}

#[test]
fn parse_inverts_encoding_of_several_records() {
    let ts: Vec<Transaction> = (0..3).map(sample).collect();
    let buf: Vec<u8> = ts.iter().flat_map(encode).collect();
    assert_eq!(buf.len(), 96);
    let back = parse_records(&buf).unwrap();
    assert_eq!(back.len(), 3);
    for (a, b) in ts.iter().zip(back.iter()) {
        assert_eq!(a.seq, b.seq);
        assert_eq!(a.account_id, b.account_id);
        assert_eq!(a.amount_cents, b.amount_cents);
        assert_eq!(a.merchant_category, b.merchant_category);
        assert_eq!(a.country_code, b.country_code);
        assert_eq!(a.geo_delta_km, b.geo_delta_km);
        assert_eq!(a.velocity_1h, b.velocity_1h);
        assert_eq!(a.channel, b.channel);
    }
}

#[test]
fn misaligned_buffer_message_names_the_length() {
    let err = parse_records(&[0u8; 33]).err().unwrap();
    assert_eq!(err, "transaction_flow length 33 is not a multiple of 32");
    assert!(parse_records(&[]).unwrap().is_empty());
}

#[test]
fn every_rule_firing_caps_the_score() {
    let tx = Transaction {
        seq: 9,
        account_id: 1,
        amount_cents: 60_000,
        merchant_category: 6011,
        country_code: 1,
        geo_delta_km: 501,
        velocity_1h: 6,
        channel: 1,
    };
    let d = score(&tx, &limits());
    assert_eq!(d.risk_score, 1000);
    assert_eq!(d.decision, Decision::Decline);
    assert_eq!(
        d.reason_mask,
        REASON_VELOCITY | REASON_GEO_JUMP | REASON_HIGH_AMOUNT | REASON_RISKY_MCC | REASON_CNP_HIGH_VALUE
    );
    assert_eq!(d.seq, 9);
}

#[test]
fn limits_are_strict_thresholds() {
    let tx = Transaction {
        seq: 1,
        account_id: 1,
        amount_cents: 50_000,
        merchant_category: 4829,
        country_code: 1,
        geo_delta_km: 500,
        velocity_1h: 5,
        channel: 1,
    };
    let d = score(&tx, &limits());
    // At the limits nothing but the risky MCC and the online payment
    // above half the amount limit fires.
    assert_eq!(d.reason_mask, REASON_RISKY_MCC | REASON_CNP_HIGH_VALUE);
    assert_eq!(d.risk_score, 650);
    assert_eq!(d.decision, Decision::Review);
}

#[test]
fn adding_a_rule_never_lowers_the_decision() {
    let mut tx = Transaction {
        seq: 1,
        account_id: 1,
        amount_cents: 100,
        merchant_category: 5411,
        country_code: 1,
        geo_delta_km: 1,
        velocity_1h: 1,
        channel: 0,
    };
    let sev = |d: Decision| match d {
        Decision::Approve => 0,
        Decision::Review => 1,
        Decision::Decline => 2,
    };
    let mut last = score(&tx, &limits());
    for step in 0..4 {
        match step {
            0 => tx.merchant_category = 6051,
            1 => tx.velocity_1h = 50,
            2 => tx.geo_delta_km = 5_000,
            _ => tx.amount_cents = 90_000,
        }
        let d = score(&tx, &limits());
        assert!(d.risk_score >= last.risk_score);
        assert!(sev(d.decision) >= sev(last.decision));
        last = d;
    }
}

#[test]
fn score_near_review_threshold() {
    // Amount alone: 300 points, exactly the review threshold.
    let tx = Transaction {
        seq: 1,
        account_id: 1,
        amount_cents: 50_001,
        merchant_category: 5411,
        country_code: 1,
        geo_delta_km: 1,
        velocity_1h: 1,
        channel: 0,
    };
    let d = score(&tx, &limits());
    assert_eq!((d.risk_score, d.decision, d.reason_mask), (300, Decision::Review, REASON_HIGH_AMOUNT));
}
