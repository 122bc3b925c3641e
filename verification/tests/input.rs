use fraud_index::input::payload::{parse_payload, Payload};
use fraud_index::normalizer::{DataNormalizer, Features};
use fraud_index::score::{place, score, BadTime};
use fraud_index::tree::index::{build, partition_key, Point};
use fraud_index::types::RawData;

fn parse(body: &[u8]) -> Option<Payload<'_>> {
    parse_payload(body, &|p: usize| {
        fast_float::parse_partial::<f32, _>(&body[p..]).ok().map(|(v, n)| (v.to_bits(), n))
    })
}

fn float(bits: u32) -> f32 {
    f32::from_bits(bits)
}

const SAMPLE: &[u8] = br#"{"id":"tx-100","transaction":{"amount":41.12,"installments":2,"requested_at":"2026-03-11T18:45:53Z"},"customer":{"avg_amount":82.24,"tx_count_24h":3,"known_merchants":["MERC-003","MERC-016"]},"merchant":{"id":"MERC-016","mcc":"5411","avg_amount":60.25},"terminal":{"is_online":false,"card_present":true,"km_from_home":29.2331},"last_transaction":null}"#;

const SAMPLE_PRETTY: &[u8] = br#"{
    "id": "tx-1329056812",
    "transaction": {
      "amount": 41.12,
      "installments": 2,
      "requested_at": "2026-03-11T18:45:53Z"
    },
    "customer": {
      "avg_amount": 82.24,
      "tx_count_24h": 3,
      "known_merchants": [
        "MERC-003",
        "MERC-016"
      ]
    },
    "merchant": {
      "id": "MERC-016",
      "mcc": "5411",
      "avg_amount": 60.25
    },
    "terminal": {
      "is_online": false,
      "card_present": true,
      "km_from_home": 29.2331036248
    },
    "last_transaction": null
  }"#;

const SAMPLE_WITH_LAST_TX: &[u8] = br#"{
    "id": "tx-3576980410",
    "transaction": {
      "amount": 384.88,
      "installments": 3,
      "requested_at": "2026-03-11T20:23:35Z"
    },
    "customer": {
      "avg_amount": 769.76,
      "tx_count_24h": 3,
      "known_merchants": ["MERC-009","MERC-009","MERC-001","MERC-001"]
    },
    "merchant": {
      "id": "MERC-001",
      "mcc": "5912",
      "avg_amount": 298.95
    },
    "terminal": {
      "is_online": false,
      "card_present": true,
      "km_from_home": 13.7090520965
    },
    "last_transaction": {
      "timestamp": "2026-03-11T14:58:35Z",
      "km_from_current": 18.8626479774
    }
  }"#;

#[test]
fn test_scanner() {
    let payload = parse(SAMPLE).unwrap();
    assert_eq!(float(payload.amount), 41.12_f32);
    assert_eq!(payload.installments, 2);
    assert_eq!(payload.requested_at, b"2026-03-11T18:45:53Z" as &[u8]);
    assert_eq!(float(payload.customer_avg_amount), 82.24_f32);
    assert_eq!(payload.tx_count_24h, 3);
    assert_eq!(payload.merchant_id, b"MERC-016" as &[u8]);
    assert_eq!(payload.merchant_mcc, b"5411" as &[u8]);
    assert_eq!(float(payload.merchant_avg_amount), 60.25_f32);
    assert!(!payload.is_online);
    assert!(payload.card_present);
    assert_eq!(float(payload.km_from_home), 29.2331_f32);
    assert_eq!(payload.last_timestamp, None);
    assert_eq!(payload.last_km, None);
}

#[test]
fn test_scanner_with_last_tx() {
    let payload = parse(SAMPLE_WITH_LAST_TX).unwrap();
    assert_eq!(float(payload.amount), 384.88_f32);
    assert_eq!(payload.installments, 3);
    assert_eq!(payload.merchant_id, b"MERC-001" as &[u8]);
    assert_eq!(payload.merchant_mcc, b"5912" as &[u8]);
    assert_eq!(payload.last_timestamp, Some(b"2026-03-11T14:58:35Z" as &[u8]));
    assert!(payload.last_km.is_some());
    assert_eq!(float(payload.last_km.unwrap()), 18.8626479774_f32);
}

#[test]
fn test_scanner_pretty() {
    let payload = parse(SAMPLE_PRETTY).unwrap();
    assert_eq!(float(payload.amount), 41.12_f32);
    assert_eq!(payload.installments, 2);
    assert_eq!(payload.requested_at, b"2026-03-11T18:45:53Z" as &[u8]);
    assert_eq!(float(payload.customer_avg_amount), 82.24_f32);
    assert_eq!(payload.tx_count_24h, 3);
    assert_eq!(payload.merchant_id, b"MERC-016" as &[u8]);
    assert_eq!(payload.merchant_mcc, b"5411" as &[u8]);
    assert!(!payload.is_online);
    assert!(payload.card_present);
    assert_eq!(payload.last_timestamp, None);
    assert_eq!(payload.last_km, None);
}

#[test]
fn lists_keep_their_brackets() {
    let payload = parse(SAMPLE).unwrap();
    assert_eq!(payload.known_merchants, br#"["MERC-003","MERC-016"]"# as &[u8]);
}

#[test]
fn no_prefix_is_a_request() {
    for n in 0..SAMPLE.len() {
        assert!(parse(&SAMPLE[..n]).is_none(), "prefix of {}", n);
    }
    for n in 0..SAMPLE_WITH_LAST_TX.len() {
        assert!(parse(&SAMPLE_WITH_LAST_TX[..n]).is_none(), "prefix of {}", n);
    }
}

#[test]
fn what_is_behind_does_not_matter() {
    let mut longer = SAMPLE.to_vec();
    longer.extend_from_slice(b"  {] garbage");
    assert_eq!(parse(&longer).unwrap().merchant_id, b"MERC-016" as &[u8]);
}

#[test]
fn only_objects_are_requests() {
    assert!(parse(b"").is_none());
    assert!(parse(b"{").is_none());
    assert!(parse(b"{}").is_none());
    assert!(parse(b"   ").is_none());
    assert!(parse(b"[1,2]").is_none());
    assert!(parse(b"null").is_none());
}

fn edited(from: &str, to: &str) -> Vec<u8> {
    let text = String::from_utf8(SAMPLE.to_vec()).unwrap();
    assert!(text.contains(from));
    text.replace(from, to).into_bytes()
}

#[test]
fn missing_fields_are_refused() {
    for field in [
        r#""amount":41.12,"#,
        r#""installments":2,"#,
        r#""avg_amount":82.24,"#,
        r#""tx_count_24h":3,"#,
        r#""mcc":"5411","#,
        r#""is_online":false,"#,
        r#""card_present":true,"#,
    ] {
        assert!(parse(&edited(field, "")).is_none(), "without {}", field);
    }
    assert!(parse(&edited(r#","km_from_home":29.2331"#, "")).is_none());
    assert!(parse(&edited(r#","requested_at":"2026-03-11T18:45:53Z""#, "")).is_none());
    assert!(parse(&edited(r#""terminal":{"is_online":false,"card_present":true,"km_from_home":29.2331},"#, "")).is_none());
}

#[test]
fn the_last_transaction_may_be_missing() {
    let body = edited(r#","last_transaction":null"#, "");
    let payload = parse(&body).unwrap();
    assert_eq!(payload.last_timestamp, None);
    assert_eq!(payload.last_km, None);
}

#[test]
fn later_fields_count() {
    let body = edited(r#""installments":2,"#, r#""installments":2,"installments":7,"#);
    assert_eq!(parse(&body).unwrap().installments, 7);
    let body = edited(
        r#""last_transaction":null"#,
        r#""last_transaction":{"timestamp":"t","km_from_current":1.5},"last_transaction":null"#,
    );
    let payload = parse(&body).unwrap();
    assert_eq!(payload.last_timestamp, Some(b"t" as &[u8]));
    assert_eq!(float(payload.last_km.unwrap()), 1.5);
}

#[test]
fn unknown_members_are_passed_over() {
    for extra in [
        r#""x":"a \" } ] b","#,
        r#""x":{"y":{"z":"}"}},"#,
        r#""x":[1,[2,"]"],3],"#,
        r#""x":true,"#,
        r#""x":false,"#,
        r#""x":null,"#,
        r#""x":-1.5e3,"#,
        r#""x" : 7 ,"#,
    ] {
        let body = edited(r#""transaction":"#, &format!("{}{}", extra, r#""transaction":"#));
        let payload = parse(&body).unwrap();
        assert_eq!(payload.installments, 2, "with {}", extra);
        assert_eq!(payload.merchant_mcc, b"5411" as &[u8]);
    }
}

#[test]
fn keys_are_told_by_their_start_and_length() {
    let body = edited(r#""installments":2"#, r#""installmXXXX":2"#);
    assert_eq!(parse(&body).unwrap().installments, 2);
    let body = edited(r#""installments":2"#, r#""installment":2"#);
    assert!(parse(&body).is_none());
    let body = edited(r#""mcc":"5411""#, r#""mcd":"5411""#);
    assert!(parse(&body).is_none());
}

#[test]
fn counts_wrap() {
    let body = edited(r#""installments":2,"#, r#""installments":4294967298,"#);
    assert_eq!(parse(&body).unwrap().installments, 2);
}

#[test]
fn what_is_no_number_is_zero() {
    let body = edited(r#""amount":41.12,"#, r#""amount":"x","#);
    assert!(parse(&body).is_none());
    let body = edited(r#""amount":41.12,"#, r#""amount":,"#);
    assert_eq!(float(parse(&body).unwrap().amount), 0.0);
}

#[test]
fn texts_keep_their_escapes() {
    let body = edited(r#""id":"MERC-016""#, r#""id":"ME\"RC""#);
    assert_eq!(parse(&body).unwrap().merchant_id, br#"ME\"RC"# as &[u8]);
}

#[test]
fn the_order_of_members_does_not_matter() {
    let body = br#"{ "extra" : [ [1] , {"a":"]"} ], "last_transaction":null,
        "terminal":{"km_from_home":29.2331,"y":{"z":null},"card_present":true,"is_online":false},
        "merchant":{"avg_amount":60.25,"mcc":"5411","id":"MERC-016"},
        "customer":{"known_merchants":["MERC-003","MERC-016"],"x":1,"tx_count_24h":3,"avg_amount":82.24},
        "transaction":{"requested_at":"2026-03-11T18:45:53Z","installments":2,"amount":41.12},
        "more":"\"","id":"tx-100"}"#;
    let a = parse(SAMPLE).unwrap();
    let b = parse(body).unwrap();
    assert_eq!(a.amount, b.amount);
    assert_eq!(a.installments, b.installments);
    assert_eq!(a.requested_at, b.requested_at);
    assert_eq!(a.customer_avg_amount, b.customer_avg_amount);
    assert_eq!(a.tx_count_24h, b.tx_count_24h);
    assert_eq!(a.known_merchants, b.known_merchants);
    assert_eq!(a.merchant_id, b.merchant_id);
    assert_eq!(a.merchant_mcc, b.merchant_mcc);
    assert_eq!(a.merchant_avg_amount, b.merchant_avg_amount);
    assert_eq!(a.is_online, b.is_online);
    assert_eq!(a.card_present, b.card_present);
    assert_eq!(a.km_from_home, b.km_from_home);
    assert_eq!(a.last_timestamp, b.last_timestamp);
    assert_eq!(a.last_km, b.last_km);
}

#[test]
fn incomplete_requests_are_refused_in_any_order() {
    let whole = br#"{"last_transaction":{"km_from_current":1.5,"timestamp":"t"}, "x":[{}],
        "terminal":{"km_from_home":29.2331,"card_present":true,"is_online":false},
        "merchant":{"avg_amount":60.25,"mcc":"5411","id":"M"},
        "customer":{"known_merchants":[],"tx_count_24h":3,"avg_amount":82.24},
        "transaction":{"requested_at":"r","installments":2,"amount":41.12}}"#;
    let text = String::from_utf8(whole.to_vec()).unwrap();
    assert!(parse(text.as_bytes()).is_some());
    for lost in [
        r#""km_from_current":1.5,"#,
        r#","timestamp":"t""#,
        r#""km_from_home":29.2331,"#,
        r#","is_online":false"#,
        r#""mcc":"5411","#,
        r#""known_merchants":[],"#,
        r#""tx_count_24h":3,"#,
        r#","amount":41.12"#,
    ] {
        assert!(text.contains(lost));
        assert!(parse(text.replace(lost, "").as_bytes()).is_none(), "without {}", lost);
    }
    for section in ["terminal", "merchant", "customer", "transaction"] {
        let named = format!("\"{}\"", section);
        let other = format!("\"x{}\"", section);
        assert!(text.contains(&named));
        assert!(parse(text.replace(&named, &other).as_bytes()).is_none(), "without {}", section);
    }
    let none = text.replace("last_transaction", "x");
    let data = parse(none.as_bytes()).unwrap();
    assert_eq!((data.last_timestamp, data.last_km), (None, None));
}

fn number(body: &[u8], p: usize) -> Option<(u32, usize)> {
    fast_float::parse_partial::<f32, _>(&body[p..]).ok().map(|(v, n)| (v.to_bits(), n))
}

#[test]
fn bodies_are_scored_by_the_index() {
    let quantise = |f: Features| [f.installments as i16; 16];
    let near = Point { q: [2; 16], card_present: true, is_online: false, has_last_tx: false };
    let other = Point { q: [2; 16], card_present: true, is_online: false, has_last_tx: true };
    let mut data: Vec<RawData<Point>> = vec![];
    for i in 0..8usize {
        let label = if i < 3 { "fraud" } else { "legit" };
        let q = [if i < 5 { 2 } else { 2000 }; 16];
        data.push(RawData { vector: Point { q, ..near }, label: label.to_string() });
        data.push(RawData { vector: other, label: "fraud".to_string() });
    }
    let idx = build(data);
    let ask = |body: &[u8]| score(body, &|p: usize| number(body, p), &quantise, &idx);
    assert_eq!(ask(SAMPLE), Ok(Some(3)));
    let later = edited(
        r#""last_transaction":null"#,
        r#""last_transaction":{"timestamp":"2026-03-11T14:58:35Z","km_from_current":1.5}"#,
    );
    assert_eq!(ask(&later), Ok(Some(5)));
    assert_eq!(ask(b"{}"), Ok(None));
    let bad = edited("2026-03-11T18", "2026-13-11T18");
    assert_eq!(ask(&bad), Err(BadTime));
}

#[test]
fn requests_are_placed_by_three_features() {
    let at = |body: &[u8]| {
        let data = parse(body).unwrap();
        assert!(DataNormalizer.accepts(&data));
        partition_key(&place(&DataNormalizer.normalize(&data), [0; 16]))
    };
    assert_eq!(at(SAMPLE), 1);
    assert_eq!(at(&edited(r#""card_present":true"#, r#""card_present":false"#)), 0);
    assert_eq!(at(&edited(r#""is_online":false"#, r#""is_online":true"#)), 3);
    let later = edited(
        r#""last_transaction":null"#,
        r#""last_transaction":{"timestamp":"2026-03-11T14:58:35Z","km_from_current":1.5}"#,
    );
    assert_eq!(at(&later), 5);
    let future = edited(
        r#""last_transaction":null"#,
        r#""last_transaction":{"timestamp":"2026-03-12T14:58:35Z","km_from_current":1.5}"#,
    );
    assert_eq!(at(&future), 5);
}
