use logbroker::protocol::{
    decode_request, decode_response, encode_request, encode_response, FetchRequest, FetchResponse, ProduceRequest,
    ProduceResponse, ProtoError, Record, Request, Response,
};
use logbroker::wire::{
    write_api_key, write_max_bytes, write_offset, write_partition, write_record,
    write_record_count, write_topic,
};

#[test]
fn decode_produce_request_of() {
    let mut p: Vec<u8> = Vec::new();
    p.push(1);
    p.extend_from_slice(&4u16.to_be_bytes());
    p.extend_from_slice(b"test");
    p.extend_from_slice(&0u16.to_be_bytes()); // partition
    p.extend_from_slice(&2u16.to_be_bytes()); // records_count

    // record1: k="k1", v="v1"
    p.extend_from_slice(&2u16.to_be_bytes());
    p.extend_from_slice(b"k1");
    p.extend_from_slice(&2u32.to_be_bytes());
    p.extend_from_slice(b"v1");

    // record2: k="", v="hello"
    p.extend_from_slice(&0u16.to_be_bytes());
    p.extend_from_slice(&5u32.to_be_bytes());
    p.extend_from_slice(b"hello");

    let req = decode_request(p).unwrap();
    match req {
        Request::Produce(r) => {
            assert_eq!(r.topic, "test");
            assert_eq!(r.partition, 0);
            assert_eq!(r.records.len(), 2);
            assert_eq!(&r.records[0].key[..], b"k1");
            assert_eq!(&r.records[0].value[..], b"v1");
            assert_eq!(&r.records[1].key[..], b"");
            assert_eq!(&r.records[1].value[..], b"hello");
        }
        _ => panic!("expected Produce request"),
    }
}

#[test]
fn decode_fetch_request_ok() {
    let mut p: Vec<u8> = Vec::new();
    p.push(2);
    p.extend_from_slice(&4u16.to_be_bytes());
    p.extend_from_slice(b"test");
    p.extend_from_slice(&1u16.to_be_bytes());
    p.extend_from_slice(&10i64.to_be_bytes());
    p.extend_from_slice(&1024u32.to_be_bytes());

    let req = decode_request(p).unwrap();
    match req {
        Request::Fetch(r) => {
            assert_eq!(r.topic, "test");
            assert_eq!(r.partition, 1);
            assert_eq!(r.offset, 10);
            assert_eq!(r.max_bytes, 1024);
        }
        _ => panic!("expected Fetch request"),
    }
}

#[test]
fn unknown_api_key_is_rejected() {
    for key in [0u8, 3, 7, 255] {
        let p = vec![key, 0, 1, b'x'];
        assert!(matches!(decode_request(p), Err(ProtoError::InvalidApiKey(k)) if k == key));
    }
}

#[test]
fn short_payloads_fail_with_eof() {
    assert!(matches!(decode_request(vec![]), Err(ProtoError::Eof)));
    assert!(matches!(decode_request(vec![1, 0, 4, b't']), Err(ProtoError::Eof)));
    // a produce request announcing two records but holding one
    let mut p = Vec::new();
    write_api_key(&mut p, 1);
    write_topic(&mut p, "t");
    write_partition(&mut p, 0);
    write_record_count(&mut p, 2);
    write_record(&mut p, "a", "b");
    assert!(matches!(decode_request(p), Err(ProtoError::Eof)));
    // a fetch request without its budget
    let mut p = Vec::new();
    write_api_key(&mut p, 2);
    write_topic(&mut p, "t");
    write_partition(&mut p, 0);
    write_offset(&mut p, 0);
    assert!(matches!(decode_request(p), Err(ProtoError::Eof)));
}

#[test]
fn request_round_trip() {
    let req = Request::Produce(ProduceRequest {
        topic: "orders".to_string(),
        partition: 7,
        records: vec![
            Record { key: b"k1".to_vec(), value: b"v1".to_vec() },
            Record { key: vec![], value: vec![0, 255, 3] },
        ],
    });
    let bytes = encode_request(&req).unwrap();
    match decode_request(bytes).unwrap() {
        Request::Produce(r) => {
            assert_eq!(r.topic, "orders");
            assert_eq!(r.partition, 7);
            assert_eq!(r.records.len(), 2);
            assert_eq!(r.records[0].key, b"k1".to_vec());
            assert_eq!(r.records[1].value, vec![0, 255, 3]);
        }
        _ => panic!("expected Produce request"),
    }

    let req = Request::Fetch(FetchRequest {
        topic: "orders".to_string(),
        partition: 65535,
        offset: -5,
        max_bytes: u32::MAX,
    });
    let bytes = encode_request(&req).unwrap();
    let mut expected = Vec::new();
    write_api_key(&mut expected, 2);
    write_topic(&mut expected, "orders");
    write_partition(&mut expected, 65535);
    write_offset(&mut expected, -5);
    write_max_bytes(&mut expected, u32::MAX);
    assert_eq!(bytes, expected);
    match decode_request(bytes).unwrap() {
        Request::Fetch(r) => {
            assert_eq!(r.topic, "orders");
            assert_eq!(r.partition, 65535);
            assert_eq!(r.offset, -5);
            assert_eq!(r.max_bytes, u32::MAX);
        }
        _ => panic!("expected Fetch request"),
    }
}

#[test]
fn encode_request_rejects_oversized_fields() {
    let req = Request::Fetch(FetchRequest {
        topic: "t".repeat(70000),
        partition: 0,
        offset: 0,
        max_bytes: 1,
    });
    assert!(matches!(encode_request(&req), Err(ProtoError::StringTooLong)));
    let req = Request::Produce(ProduceRequest {
        topic: "t".to_string(),
        partition: 0,
        records: vec![Record { key: vec![1; 65536], value: vec![] }],
    });
    assert!(matches!(encode_request(&req), Err(ProtoError::StringTooLong)));
}

#[test]
fn encode_responses() {
    let bytes = encode_response(Response::Produce(ProduceResponse { status: 0, base_offset: 258 }))
        .unwrap();
    assert_eq!(bytes, vec![1, 0, 0, 0, 0, 0, 0, 0, 1, 2]);

    let bytes = encode_response(Response::Fetch(FetchResponse {
        status: 0,
        items: vec![(1, Record { key: b"k".to_vec(), value: b"v".to_vec() })],
    }))
    .unwrap();
    assert_eq!(
        bytes,
        vec![2, 0, 0, 1, 0, 0, 0, 0, 0, 0, 0, 1, 0, 1, b'k', 0, 0, 0, 1, b'v']
    );

    let bytes = encode_response(Response::Error { message: "no".to_string() }).unwrap();
    assert_eq!(bytes, vec![255, 0, 2, b'n', b'o']);

    let long = Response::Error { message: "e".repeat(65536) };
    assert!(matches!(encode_response(long), Err(ProtoError::StringTooLong)));
    let many = Response::Fetch(FetchResponse {
        status: 0,
        items: (0..65536).map(|i| (i as i64, Record { key: vec![], value: vec![] })).collect(),
    });
    assert!(matches!(encode_response(many), Err(ProtoError::StringTooLong)));
}

#[test]
fn response_round_trip() {
    let bytes =
        encode_response(Response::Produce(ProduceResponse { status: 0, base_offset: -1 })).unwrap();
    match decode_response(bytes).unwrap() {
        Response::Produce(r) => {
            assert_eq!(r.status, 0);
            assert_eq!(r.base_offset, -1);
        }
        _ => panic!("expected a produce response"),
    }
    let bytes = encode_response(Response::Fetch(FetchResponse {
        status: 0,
        items: vec![
            (0, Record { key: b"k1".to_vec(), value: b"v1".to_vec() }),
            (1, Record { key: vec![], value: b"hello".to_vec() }),
        ],
    }))
    .unwrap();
    match decode_response(bytes).unwrap() {
        Response::Fetch(r) => {
            assert_eq!(r.items.len(), 2);
            assert_eq!(r.items[0].0, 0);
            assert_eq!(r.items[0].1.key, b"k1".to_vec());
            assert_eq!(r.items[1].0, 1);
            assert_eq!(r.items[1].1.value, b"hello".to_vec());
        }
        _ => panic!("expected a fetch response"),
    }
    let bytes = encode_response(Response::Error { message: "invalid api key: 7".to_string() })
        .unwrap();
    match decode_response(bytes).unwrap() {
        Response::Error { message } => assert_eq!(message, "invalid api key: 7"),
        _ => panic!("expected an error response"),
    }
    assert!(matches!(decode_response(vec![9]), Err(ProtoError::InvalidApiKey(9))));
    assert!(matches!(decode_response(vec![2, 0, 0, 1, 0]), Err(ProtoError::Eof)));
}
