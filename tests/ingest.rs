use sentinel_gateway::decode::decode;
use sentinel_gateway::gateway::{complete, rejection, Gateway, Method, Status, Step, WriteOutcome};
use sentinel_gateway::point::build;
use sentinel_gateway::schema::is_valid;

const SAMPLE: &str = "0004A30B00112233,0,215,512,9981,310,287,-72,3298";

fn stored(step: Step) -> sentinel_gateway::point::DataPoint {
    match step {
        Step::Store(pt) => pt,
        Step::Reply(_) => panic!("expected a point to store"),
    }
}

fn assert_rejected(step: Step) {
    match step {
        Step::Store(_) => panic!("expected a rejection"),
        Step::Reply(r) => {
            assert_eq!(r.status, Status::BadOption);
            assert_eq!(r.body, b"0".to_vec());
        }
    }
}

#[test]
fn sample_record_is_valid() {
    assert!(is_valid(SAMPLE.as_bytes()));
    assert!(is_valid(b"abcdefABCDEF0123,1,2,3,4,5,6,7,8"));
    assert!(is_valid(b"ffffffffffffffff,-1,-2,-3,-4,-5,-6,-7,-8"));
    assert!(is_valid(b"0000000000000000,007,0,0,0,0,0,0,99999999999999999999999"));
}

#[test]
fn malformed_records_are_rejected() {
    let bad: Vec<&[u8]> = vec![
        b"",
        b"0004A30B00112233",
        b"0004A30B00112233,",
        b"0004A30B00112233,0,215,512,9981,310,287,-72",
        b"0004A30B00112233,0,215,512,9981,310,287,-72,3298,1",
        b"0004A30B0011223,0,215,512,9981,310,287,-72,3298",
        b"0004A30B001122334,0,215,512,9981,310,287,-72,3298",
        b"0004A30B0011223G,0,215,512,9981,310,287,-72,3298",
        b"0004A30B00112233,0,215,512,9981,310,287,-72,3298 ",
        b" 0004A30B00112233,0,215,512,9981,310,287,-72,3298",
        b"0004A30B00112233,0,21.5,1012,99.8,31.0,28.7,-72,32.98",
        b"0004A30B00112233,0,215,512,9981,310,287,-,3298",
        b"0004A30B00112233,0,215,512,9981,310,287,--72,3298",
        b"0004A30B00112233,0,215,512,9981,310,287,+72,3298",
        b"0004A30B00112233,0,215,512,9981,310,287,7-2,3298",
        b"0004A30B00112233,0,215,512,9981,310,287,,3298",
        b"0004A30B00112233,0215,512,9981,310,287,-72,3298",
        b"0004A30B00112233;0,215,512,9981,310,287,-72,3298",
        b"0004A30B00112233,0,215,512,9981,310,287,-72,3298\n",
    ];
    for p in bad {
        assert!(!is_valid(p), "accepted {:?}", String::from_utf8_lossy(p));
    }
}

#[test]
fn validator_agrees_with_anchored_pattern() {
    let re = regex::Regex::new(r"^([a-fA-F0-9]{16})(,-?[0-9]+){8}$").unwrap();
    let base = SAMPLE.as_bytes().to_vec();
    let alphabet: &[u8] = b"0aF,-9g .x";
    let mut cases: Vec<Vec<u8>> = vec![base.clone()];
    for i in 0..base.len() {
        let mut removed = base.clone();
        removed.remove(i);
        cases.push(removed);
        for &c in alphabet {
            let mut changed = base.clone();
            changed[i] = c;
            cases.push(changed);
            let mut inserted = base.clone();
            inserted.insert(i, c);
            cases.push(inserted);
        }
    }
    for c in cases {
        let text = String::from_utf8(c.clone()).unwrap();
        assert_eq!(is_valid(&c), re.is_match(&text), "disagree on {:?}", text);
    }
}

#[test]
fn decode_takes_id_and_fields() {
    let d = decode(SAMPLE.as_bytes());
    assert_eq!(d.device_id, "0004A30B00112233");
    assert_eq!(d.values, vec!["0", "215", "512", "9981", "310", "287", "-72", "3298"]);
}

#[test]
fn decode_keeps_fields_of_any_size() {
    let p = b"0123456789abcdef,-9223372036854775809,9223372036854775808,0,-0,1,-1,0010,99999999999999999999999999999999999";
    let d = decode(p);
    assert_eq!(d.device_id, "0123456789abcdef");
    assert_eq!(
        d.values,
        vec!["-9223372036854775809", "9223372036854775808", "0", "-0", "1", "-1", "0010", "99999999999999999999999999999999999"]
    );
}

#[test]
fn build_binds_fields_one_to_seven() {
    let d = decode(SAMPLE.as_bytes());
    let pt = build(d, 1_700_000_000_000_000_000);
    assert_eq!(pt.device_id, "0004A30B00112233");
    assert_eq!(pt.temp, "215");
    assert_eq!(pt.hum, "512");
    assert_eq!(pt.pres, "9981");
    assert_eq!(pt.cl1, "310");
    assert_eq!(pt.cl2, "287");
    assert_eq!(pt.rssi, "-72");
    assert_eq!(pt.vbat, "3298");
    assert_eq!(pt.time, 1_700_000_000_000_000_000);
}

#[test]
fn build_is_deterministic_but_for_the_timestamp() {
    let a = build(decode(SAMPLE.as_bytes()), 5);
    let b = build(decode(SAMPLE.as_bytes()), 9);
    assert_eq!(a.device_id, b.device_id);
    assert_eq!(
        (&a.temp, &a.hum, &a.pres, &a.cl1, &a.cl2, &a.rssi, &a.vbat),
        (&b.temp, &b.hum, &b.pres, &b.cl1, &b.cl2, &b.rssi, &b.vbat)
    );
    assert_eq!((a.time, b.time), (5, 9));
}

#[test]
fn stamps_never_go_back() {
    let mut g = Gateway::new("sensors".to_string());
    assert_eq!(g.last_stamp(), i64::MIN);
    assert_eq!(g.stamp_at(100), 100);
    assert_eq!(g.stamp_at(50), 100);
    assert_eq!(g.stamp_at(150), 150);
    let first = g.stamp();
    let second = g.stamp();
    assert!(first >= 150);
    assert!(second >= first);
    assert_eq!(g.last_stamp(), second);
}

#[test]
fn store_request_yields_one_point_and_a_valid_reply() {
    let mut g = Gateway::new("sensors".to_string());
    let pt = stored(g.handle_at(Method::Put, SAMPLE.as_bytes(), 42));
    assert_eq!(pt.device_id, "0004A30B00112233");
    assert_eq!(pt.temp, "215");
    assert_eq!(pt.vbat, "3298");
    assert_eq!(pt.time, 42);
    assert_eq!(g.last_stamp(), 42);
    assert_eq!(g.bucket(), "sensors");
    let r = complete(WriteOutcome::Written);
    assert_eq!(r.status, Status::Valid);
    assert!(r.body.is_empty());
}

#[test]
fn decimal_fields_are_not_integers_and_are_rejected() {
    let mut g = Gateway::new("sensors".to_string());
    let body = b"0004A30B00112233,0,21.5,1012,99.8,31.0,28.7,-72,32.98";
    assert_rejected(g.handle_at(Method::Put, body, 7));
    assert_eq!(g.last_stamp(), i64::MIN);
}

#[test]
fn missing_trailing_field_is_rejected() {
    let mut g = Gateway::new("sensors".to_string());
    let body = b"0004A30B00112233,0,215,512,9981,310,287,-72";
    assert_rejected(g.handle_at(Method::Put, body, 7));
    assert_rejected(g.handle(Method::Put, body));
    assert_eq!(g.last_stamp(), i64::MIN);
}

#[test]
fn wrong_method_is_rejected() {
    let mut g = Gateway::new("sensors".to_string());
    for m in [Method::Get, Method::Post, Method::Delete, Method::Fetch, Method::Patch, Method::IPatch, Method::Unknown] {
        assert_rejected(g.handle_at(m, SAMPLE.as_bytes(), 7));
    }
    assert_eq!(g.last_stamp(), i64::MIN);
}

#[test]
fn fields_beyond_i64_are_stored() {
    let mut g = Gateway::new("sensors".to_string());
    let body = b"0004A30B00112233,0,9223372036854775808,512,9981,310,287,-72,-99999999999999999999";
    assert!(is_valid(body));
    let pt = stored(g.handle_at(Method::Put, body, 7));
    assert_eq!(pt.temp, "9223372036854775808");
    assert_eq!(pt.vbat, "-99999999999999999999");
    assert_eq!(pt.time, 7);
}

#[test]
fn rejection_carries_the_marker() {
    let r = rejection();
    assert_eq!(r.status, Status::BadOption);
    assert_eq!(r.body, vec![b'0']);
}

#[test]
fn interleaved_requests_keep_their_own_fields() {
    let mut g = Gateway::new("sensors".to_string());
    let a = b"aaaaaaaaaaaaaaaa,1,11,12,13,14,15,16,17";
    let b = b"bbbbbbbbbbbbbbbb,2,21,22,23,24,25,26,27";
    let pb = stored(g.handle_at(Method::Put, b, 20));
    let pa = stored(g.handle_at(Method::Put, a, 10));
    assert_eq!(pa.device_id, "aaaaaaaaaaaaaaaa");
    assert_eq!(
        [&pa.temp, &pa.hum, &pa.pres, &pa.cl1, &pa.cl2, &pa.rssi, &pa.vbat],
        ["11", "12", "13", "14", "15", "16", "17"]
    );
    assert_eq!(pb.device_id, "bbbbbbbbbbbbbbbb");
    assert_eq!(
        [&pb.temp, &pb.hum, &pb.pres, &pb.cl1, &pb.cl2, &pb.rssi, &pb.vbat],
        ["21", "22", "23", "24", "25", "26", "27"]
    );
    assert_eq!((pb.time, pa.time), (20, 20));
}

#[test]
fn failed_write_does_not_block_the_next_request() {
    let mut g = Gateway::new("sensors".to_string());
    let first = stored(g.handle(Method::Put, SAMPLE.as_bytes()));
    let r = complete(WriteOutcome::Failed);
    assert_eq!(r.status, Status::InternalServerError);
    assert!(r.body.is_empty());
    let second = stored(g.handle(Method::Put, b"1111222233334444,9,8,7,6,5,4,3,2"));
    assert_eq!(second.device_id, "1111222233334444");
    assert_eq!(second.temp, "8");
    assert!(second.time >= first.time);
    assert_eq!(complete(WriteOutcome::Written).status, Status::Valid);
}
