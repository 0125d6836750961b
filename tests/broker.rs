use logbroker::broker::{
    encode_frame, encode_reply, fetch_response, frame_length, invalid_request_response, log_file_name,
    open_error_response, produce_response, MAX_FRAME_SIZE,
};
use logbroker::protocol::{
    decode_request, encode_request, ApiKey, FetchRequest, ProduceRequest,
    ProtoError, Record, Request, Response,
};
use logbroker::storage::{PartitionLog, StorageError};

/// One partition served in memory, the way the server serves one.
struct Server {
    file: Vec<u8>,
    log: PartitionLog,
}

impl Server {
    fn new() -> Server {
        Server { file: Vec::new(), log: PartitionLog::open(&[]).unwrap() }
    }

    fn serve(&mut self, payload: Vec<u8>) -> Vec<u8> {
        let resp = match decode_request(payload) {
            Ok(Request::Produce(r)) => {
                assert!(self.log.can_append(&r.records));
                let (base, bytes) = self.log.append(&r.records);
                self.file.extend_from_slice(&bytes);
                produce_response(Ok(base))
            }
            Ok(Request::Fetch(r)) => {
                let items = match self.log.fetch_start(r.offset) {
                    Some(pos) => self.log.fetch(r.offset, r.max_bytes, &self.file[pos as usize..]),
                    None => Vec::new(),
                };
                fetch_response(Ok(items))
            }
            Err(e) => invalid_request_response(&e),
        };
        encode_reply(resp)
    }
}

fn produce(topic: &str, kvs: &[(&str, &str)]) -> Vec<u8> {
    encode_request(&Request::Produce(ProduceRequest {
        topic: topic.to_string(),
        partition: 0,
        records: kvs
            .iter()
            .map(|(k, v)| Record { key: k.as_bytes().to_vec(), value: v.as_bytes().to_vec() })
            .collect(),
    }))
    .unwrap()
}

fn fetch(topic: &str, offset: i64, max_bytes: u32) -> Vec<u8> {
    encode_request(&Request::Fetch(FetchRequest {
        topic: topic.to_string(),
        partition: 0,
        offset,
        max_bytes,
    }))
    .unwrap()
}

#[test]
fn produce_then_fetch_same_connection() {
    let mut s = Server::new();
    let reply = s.serve(produce("test", &[("k1", "v1"), ("k2", "v2")]));
    assert_eq!(reply, vec![1, 0, 0, 0, 0, 0, 0, 0, 0, 0]);
    let reply = s.serve(fetch("test", 0, 1_048_576));
    let mut expected = vec![2, 0, 0, 2];
    expected.extend_from_slice(&[0, 0, 0, 0, 0, 0, 0, 0, 0, 2, b'k', b'1', 0, 0, 0, 2, b'v', b'1']);
    expected.extend_from_slice(&[0, 0, 0, 0, 0, 0, 0, 1, 0, 2, b'k', b'2', 0, 0, 0, 2, b'v', b'2']);
    assert_eq!(reply, expected);
}

#[test]
fn empty_key_over_the_wire() {
    let mut s = Server::new();
    assert_eq!(s.serve(produce("t", &[("", "hello")])), vec![1, 0, 0, 0, 0, 0, 0, 0, 0, 0]);
    let reply = s.serve(fetch("t", 0, 1_048_576));
    assert_eq!(
        reply,
        vec![2, 0, 0, 1, 0, 0, 0, 0, 0, 0, 0, 0, 0, 0, 0, 0, 0, 5, b'h', b'e', b'l', b'l', b'o']
    );
}

#[test]
fn fetch_past_end_over_the_wire() {
    let mut s = Server::new();
    assert_eq!(s.serve(fetch("t", 0, 1_048_576)), vec![2, 0, 0, 0]);
}

#[test]
fn tight_budget_over_the_wire() {
    let mut s = Server::new();
    s.serve(produce("t", &[("a", "b")]));
    assert_eq!(s.serve(fetch("t", 0, 10)), vec![2, 0, 0, 0]);
}

#[test]
fn restart_over_the_wire() {
    let mut s = Server::new();
    s.serve(produce("t", &[("a", "1"), ("b", "2"), ("c", "3")]));
    let mut restarted = Server { file: s.file.clone(), log: PartitionLog::open(&s.file).unwrap() };
    let reply = restarted.serve(fetch("t", 0, 1_048_576));
    assert_eq!(reply, s.serve(fetch("t", 0, 1_048_576)));
    assert_eq!(&reply[..4], &[2, 0, 0, 3]);
}

#[test]
fn unknown_api_key_then_valid_request() {
    let mut s = Server::new();
    let reply = s.serve(vec![7, 0, 0]);
    assert_eq!(reply[0], 255);
    let len = u16::from_be_bytes([reply[1], reply[2]]) as usize;
    let message = String::from_utf8(reply[3..3 + len].to_vec()).unwrap();
    assert_eq!(message, "invalid request: invalid api key: 7");
    assert!(message.contains("invalid api key"));
    assert_eq!(s.serve(produce("t", &[("a", "b")])), vec![1, 0, 0, 0, 0, 0, 0, 0, 0, 0]);
}

#[test]
fn error_messages() {
    assert_eq!(ProtoError::Eof.message(), "unexpected EOF");
    assert_eq!(ProtoError::InvalidApiKey(200).message(), "invalid api key: 200");
    assert_eq!(ProtoError::StringTooLong.message(), "string too long");
    assert_eq!(StorageError::Corrupted.message(), "corrupted log");
    assert_eq!(StorageError::Io("disk full".to_string()).message(), "io: disk full");
    match produce_response(Err(StorageError::Corrupted)) {
        Response::Error { message } => assert_eq!(message, "append error: corrupted log"),
        _ => panic!("expected an error response"),
    }
    match fetch_response(Err(StorageError::Io("gone".to_string()))) {
        Response::Error { message } => assert_eq!(message, "fetch error: io: gone"),
        _ => panic!("expected an error response"),
    }
    match open_error_response(&StorageError::Corrupted) {
        Response::Error { message } => assert_eq!(message, "corrupted log"),
        _ => panic!("expected an error response"),
    }
    match produce_response(Ok(41)) {
        Response::Produce(r) => {
            assert_eq!(r.status, 0);
            assert_eq!(r.base_offset, 41);
        }
        _ => panic!("expected a produce response"),
    }
}

#[test]
fn fetch_response_keeps_all_items() {
    let items: Vec<(i64, Record)> =
        (0..70000).map(|i| (i as i64, Record { key: vec![], value: vec![] })).collect();
    let resp = fetch_response(Ok(items));
    match &resp {
        Response::Fetch(r) => {
            assert_eq!(r.items.len(), 70000);
            assert_eq!(r.items[69999].0, 69999);
        }
        _ => panic!("expected a fetch response"),
    }
    // the count does not fit its u16 field: the reply says so instead
    let reply = encode_reply(resp);
    let mut expected = vec![255, 0, 29];
    expected.extend_from_slice(b"encode error: string too long");
    assert_eq!(reply, expected);
}

#[test]
fn encode_reply_of_fitting_response() {
    let reply = encode_reply(produce_response(Ok(3)));
    assert_eq!(reply, vec![1, 0, 0, 0, 0, 0, 0, 0, 0, 3]);
}

#[test]
fn log_file_names() {
    assert_eq!(log_file_name("orders", 0), "orders-0.log");
    assert_eq!(log_file_name("t", 65535), "t-65535.log");
}

#[test]
fn frames() {
    assert_eq!(frame_length(&[0, 0, 1, 2]), Some(258));
    assert_eq!(frame_length(&[0, 0x80, 0, 0]), Some(MAX_FRAME_SIZE));
    assert_eq!(frame_length(&[0, 0x80, 0, 1]), None);
    assert_eq!(frame_length(&[0xff, 0xff, 0xff, 0xff]), None);
    assert_eq!(encode_frame(&[9, 8]), vec![0, 0, 0, 2, 9, 8]);
    assert_eq!(encode_frame(&[]), vec![0, 0, 0, 0]);
}

#[test]
fn api_keys() {
    assert_eq!(ApiKey::try_from(1), Ok(ApiKey::Produce));
    assert_eq!(ApiKey::try_from(2), Ok(ApiKey::Fetch));
    assert_eq!(ApiKey::try_from(9), Err(9));
}
