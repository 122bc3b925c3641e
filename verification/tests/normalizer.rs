use fraud_index::input::payload::Payload;
use fraud_index::normalizer::{
    b2, b4, comp_mcc, is_countable, is_dated, ts_hour, ts_to_minutes, ts_weekday, ymd_to_days,
    DataNormalizer, Features,
};

#[test]
fn test_ts_hour() {
    assert_eq!(ts_hour(b"2026-03-11T18:45:53Z") as f32 / 23.0, 18.0 / 23.0);
    assert_eq!(ts_hour(b"2026-03-11T00:00:00Z") as f32 / 23.0, 0.0);
    assert_eq!(ts_hour(b"2026-03-11T23:59:59Z") as f32 / 23.0, 1.0);
}

#[test]
fn test_ts_weekday() {
    assert_eq!(ts_weekday(b"2026-03-11T00:00:00Z") as f32 / 6.0, 2.0 / 6.0);
    assert_eq!(ts_weekday(b"2026-03-09T00:00:00Z") as f32 / 6.0, 0.0 / 6.0);
    assert_eq!(ts_weekday(b"2026-03-15T00:00:00Z") as f32 / 6.0, 6.0 / 6.0);
}

#[test]
fn test_ts_minutes_diff() {
    let a = b"2026-03-11T20:23:35Z";
    let b = b"2026-03-11T14:58:35Z";
    assert_eq!(ts_to_minutes(a) - ts_to_minutes(b), 325);
}

#[test]
fn digits_are_numbers() {
    assert_eq!(b2(b"07"), 7);
    assert_eq!(b2(b"99Z"), 99);
    assert_eq!(b4(b"2026"), 2026);
    assert_eq!(b4(b"0001-"), 1);
    assert_eq!(b2(b":0"), 100);
}

#[test]
fn day_numbers_are_julian() {
    assert_eq!(ymd_to_days(2000, 1, 1), 2_451_545);
    assert_eq!(ymd_to_days(1970, 1, 1), 2_440_588);
    assert_eq!(ymd_to_days(2024, 3, 1) - ymd_to_days(2024, 2, 28), 2);
    assert_eq!(ymd_to_days(2023, 3, 1) - ymd_to_days(2023, 2, 28), 1);
    assert_eq!(ymd_to_days(2100, 3, 1) - ymd_to_days(2100, 2, 28), 1);
    assert_eq!(ymd_to_days(2025, 1, 1) - ymd_to_days(2024, 12, 31), 1);
}

#[test]
fn weekdays_follow_day_numbers() {
    for d in 1..29u32 {
        let text = format!("2024-02-{:02}T00:00:00Z", d);
        assert_eq!(ts_weekday(text.as_bytes()) as i64, ymd_to_days(2024, 2, d) % 7);
    }
}

#[test]
fn minutes_count_hours_and_days() {
    let base = ts_to_minutes(b"2024-02-28T00:00:00Z");
    assert_eq!(ts_to_minutes(b"2024-02-28T01:01:59Z") - base, 61);
    assert_eq!(ts_to_minutes(b"2024-02-29T00:00:00Z") - base, 1440);
    assert_eq!(ts_to_minutes(b"2024-03-01T00:00:00Z") - base, 2880);
}

#[test]
fn categories_have_risks() {
    let known: [(&[u8], u32); 10] = [
        (b"5411", 15),
        (b"5812", 30),
        (b"5912", 20),
        (b"5944", 45),
        (b"7801", 80),
        (b"7802", 75),
        (b"7995", 85),
        (b"4511", 35),
        (b"5311", 25),
        (b"5999", 50),
    ];
    for (code, risk) in known.iter() {
        assert_eq!(comp_mcc(code), *risk);
    }
    assert_eq!(comp_mcc(b"0000"), 50);
    assert_eq!(comp_mcc(b"541"), 50);
    assert_eq!(comp_mcc(b"05411"), 50);
    assert_eq!(comp_mcc(b"54x1"), 50);
    assert_eq!(comp_mcc(b""), 50);
}

#[test]
fn risks_scale_to_fractions() {
    assert_eq!(comp_mcc(b"5411") as f32 / 100.0, 0.15);
    assert_eq!(comp_mcc(b"5812") as f32 / 100.0, 0.30);
    assert_eq!(comp_mcc(b"5912") as f32 / 100.0, 0.20);
    assert_eq!(comp_mcc(b"5944") as f32 / 100.0, 0.45);
    assert_eq!(comp_mcc(b"7801") as f32 / 100.0, 0.80);
    assert_eq!(comp_mcc(b"7802") as f32 / 100.0, 0.75);
    assert_eq!(comp_mcc(b"7995") as f32 / 100.0, 0.85);
    assert_eq!(comp_mcc(b"4511") as f32 / 100.0, 0.35);
    assert_eq!(comp_mcc(b"5311") as f32 / 100.0, 0.25);
    assert_eq!(comp_mcc(b"5999") as f32 / 100.0, 0.50);
}

#[test]
fn bad_timestamps_are_told() {
    assert!(is_dated(b"2026-03-11"));
    assert!(!is_dated(b"2026-03-1"));
    assert!(!is_dated(b"2026-00-11"));
    assert!(!is_dated(b"2026-13-11"));
    assert!(!is_dated(b"0000-01-11"));
    assert!(is_dated(b"0000-03-11"));
    assert!(!is_dated(b"20/6-03-11"));
    assert!(is_dated(b"20:6-03-11"));
    assert!(is_countable(b"2026-03-11T18:45"));
    assert!(!is_countable(b"2026-03-11T18:4"));
    assert!(!is_countable(b"2026-15-11T18:45"));
    assert!(!is_countable(b""));
}

fn payload<'a>() -> Payload<'a> {
    Payload {
        amount: 41.12f32.to_bits(),
        installments: 2,
        requested_at: b"2026-03-11T18:45:53Z",
        customer_avg_amount: 82.24f32.to_bits(),
        tx_count_24h: 3,
        known_merchants: b"[\"MERC-003\",\"MERC-016\"]",
        merchant_id: b"MERC-016",
        merchant_mcc: b"5411",
        merchant_avg_amount: 60.25f32.to_bits(),
        is_online: false,
        card_present: true,
        km_from_home: 29.2331f32.to_bits(),
        last_timestamp: None,
        last_km: None,
    }
}

#[test]
fn request_without_last_transaction() {
    let p = payload();
    assert!(DataNormalizer.accepts(&p));
    let f = DataNormalizer.normalize(&p);
    assert_eq!(
        f,
        Features {
            amount: 41.12f32.to_bits(),
            installments: 2,
            customer_avg_amount: 82.24f32.to_bits(),
            hour: 18,
            weekday: 2,
            minutes_since_last: None,
            last_km: None,
            km_from_home: 29.2331f32.to_bits(),
            tx_count_24h: 3,
            is_online: false,
            card_present: true,
            unknown_merchant: false,
            mcc_risk: 15,
            merchant_avg_amount: 60.25f32.to_bits(),
        }
    );
}

#[test]
fn request_with_last_transaction() {
    let mut p = payload();
    p.last_timestamp = Some(b"2026-03-11T14:58:35Z");
    p.last_km = Some(18.8f32.to_bits());
    let f = DataNormalizer.normalize(&p);
    assert_eq!(f.minutes_since_last, Some(227));
    assert_eq!(f.last_km, Some(18.8f32.to_bits()));
    p.last_km = None;
    let f = DataNormalizer.normalize(&p);
    assert_eq!(f.minutes_since_last, None);
    assert_eq!(f.last_km, None);
}

#[test]
fn merchants_match_between_quotes_only() {
    let mut p = payload();
    p.merchant_id = b"MERC-01";
    assert!(DataNormalizer.normalize(&p).unknown_merchant);
    p.merchant_id = b"MERC-003";
    assert!(!DataNormalizer.normalize(&p).unknown_merchant);
    p.known_merchants = b"[]";
    assert!(DataNormalizer.normalize(&p).unknown_merchant);
    p.known_merchants = b"\"";
    assert!(DataNormalizer.normalize(&p).unknown_merchant);
    p.known_merchants = b"\"\"";
    p.merchant_id = b"";
    assert!(!DataNormalizer.normalize(&p).unknown_merchant);
}

#[test]
fn requests_with_bad_times_are_not_accepted() {
    let mut p = payload();
    p.requested_at = b"2026-13-11T18:45:53Z";
    assert!(!DataNormalizer.accepts(&p));
    let mut p = payload();
    p.requested_at = b"2026-03-11T1";
    assert!(!DataNormalizer.accepts(&p));
    let mut p = payload();
    p.last_timestamp = Some(b"never");
    assert!(DataNormalizer.accepts(&p));
    p.last_km = Some(0);
    assert!(!DataNormalizer.accepts(&p));
}

#[test]
fn minutes_go_up_as_timestamps_are_written() {
    let stamps: [&[u8]; 8] = [
        b"1999-12-31T23:59:59Z",
        b"2000-01-01T00:00:00Z",
        b"2000-02-29T23:59:00Z",
        b"2000-03-01T00:00:00Z",
        b"2023-02-28T12:30:00Z",
        b"2023-03-01T00:29:00Z",
        b"2023-03-01T00:30:00Z",
        b"2024-01-31T23:00:00Z",
    ];
    for w in stamps.windows(2) {
        assert!(ts_to_minutes(w[0]) < ts_to_minutes(w[1]));
    }
    assert_eq!(
        ts_to_minutes(b"2023-03-01T00:29:10Z"),
        ts_to_minutes(b"2023-03-01T00:29:59Z")
    );
}
