//! Requests and responses, and their encodings on the wire.
use vstd::prelude::*;
use vstd::utf8::encode_utf8;
use crate::wire::{
    lemma_u16_round_trip, lemma_u32_round_trip, lemma_i64_round_trip, lemma_record_round_trip,
    lemma_str_round_trip, ByteReader, take_u8, take_u16, take_u32, take_i64, take_str,
    take_record, str_bytes, key_bytes, value_bytes, u16_bytes, u32_bytes, i64_bytes, read_u8,
    read_u16, read_u32, read_i64, read_str, read_record, put_u16, put_u32, put_i64, put_slice,
    write_str,
};

verus! {

/// Errors of decoding and encoding protocol messages.
#[derive(Debug, Clone, Copy, PartialEq, Eq, Structural)]
pub enum ProtoError {
    /// The input ended inside a message.
    Eof,
    /// The first byte of a request is no known api key.
    InvalidApiKey(u8),
    /// A length does not fit its prefix.
    StringTooLong,
}

/// The two request kinds, by their api key.
#[derive(Debug, Clone, Copy, PartialEq, Eq, Structural)]
pub enum ApiKey {
    Produce,
    Fetch,
}

impl ApiKey {
    pub open spec fn code(self) -> u8 {
        match self {
            ApiKey::Produce => 1,
            ApiKey::Fetch => 2,
        }
    }

    /// The api key with wire code `value`, or the code itself where none has it.
    pub fn try_from(value: u8) -> (r: Result<ApiKey, u8>)
        ensures
            value == 1 ==> r == Ok::<ApiKey, u8>(ApiKey::Produce),
            value == 2 ==> r == Ok::<ApiKey, u8>(ApiKey::Fetch),
            value != 1 && value != 2 ==> r == Err::<ApiKey, u8>(value),
            r is Ok ==> r->Ok_0.code() == value,
    {
        match value {
            1 => Ok(ApiKey::Produce),
            2 => Ok(ApiKey::Fetch),
            x => Err(x),
        }
    }
}

/// An opaque key and value.
#[derive(Debug, Clone)]
pub struct Record {
    pub key: Vec<u8>,
    pub value: Vec<u8>,
}

pub struct RecordView {
    pub key: Seq<u8>,
    pub value: Seq<u8>,
}

impl View for Record {
    type V = RecordView;

    open spec fn view(&self) -> RecordView {
        RecordView { key: self.key@, value: self.value@ }
    }
}

pub open spec fn records_view(v: Seq<Record>) -> Seq<RecordView> {
    v.map_values(|r: Record| r@)
}

pub open spec fn items_view(v: Seq<(i64, Record)>) -> Seq<(i64, RecordView)> {
    v.map_values(|x: (i64, Record)| (x.0, x.1@))
}

#[derive(Debug)]
pub enum Request {
    Produce(ProduceRequest),
    Fetch(FetchRequest),
}

#[derive(Debug)]
pub struct ProduceRequest {
    pub topic: String,
    pub partition: u16,
    pub records: Vec<Record>,
}

#[derive(Debug)]
pub struct FetchRequest {
    pub topic: String,
    pub partition: u16,
    pub offset: i64,
    pub max_bytes: u32,
}

pub enum RequestView {
    Produce { topic: Seq<char>, partition: u16, records: Seq<RecordView> },
    Fetch { topic: Seq<char>, partition: u16, offset: i64, max_bytes: u32 },
}

impl View for Request {
    type V = RequestView;

    open spec fn view(&self) -> RequestView {
        match self {
            Request::Produce(r) => RequestView::Produce {
                topic: r.topic@,
                partition: r.partition,
                records: records_view(r.records@),
            },
            Request::Fetch(r) => RequestView::Fetch {
                topic: r.topic@,
                partition: r.partition,
                offset: r.offset,
                max_bytes: r.max_bytes,
            },
        }
    }
}

#[derive(Debug)]
pub enum Response {
    Produce(ProduceResponse),
    Fetch(FetchResponse),
    Error { message: String },
}

#[derive(Debug, Clone, Copy, PartialEq, Eq, Structural)]
pub struct ProduceResponse {
    pub status: u8,
    pub base_offset: i64,
}

#[derive(Debug)]
pub struct FetchResponse {
    pub status: u8,
    pub items: Vec<(i64, Record)>,
}

pub enum ResponseView {
    Produce { status: u8, base_offset: i64 },
    Fetch { status: u8, items: Seq<(i64, RecordView)> },
    Error { message: Seq<char> },
}

impl View for Response {
    type V = ResponseView;

    open spec fn view(&self) -> ResponseView {
        match self {
            Response::Produce(r) => ResponseView::Produce {
                status: r.status,
                base_offset: r.base_offset,
            },
            Response::Fetch(r) => ResponseView::Fetch { status: r.status, items: items_view(r.items@) },
            Response::Error { message } => ResponseView::Error { message: message@ },
        }
    }
}

// ---------- encodings ----------

/// A record on the wire: its key behind a `u16` length, its value behind a `u32` length.
pub open spec fn record_wire(r: RecordView) -> Seq<u8> {
    key_bytes(r.key) + value_bytes(r.value)
}

pub open spec fn records_wire(rs: Seq<RecordView>) -> Seq<u8>
    decreases rs.len(),
{
    if rs.len() == 0 {
        Seq::empty()
    } else {
        record_wire(rs[0]) + records_wire(rs.drop_first())
    }
}

pub open spec fn items_wire(items: Seq<(i64, RecordView)>) -> Seq<u8>
    decreases items.len(),
{
    if items.len() == 0 {
        Seq::empty()
    } else {
        i64_bytes(items[0].0) + record_wire(items[0].1) + items_wire(items.drop_first())
    }
}

/// A record whose lengths fit their prefixes.
pub open spec fn record_fits(r: RecordView) -> bool {
    r.key.len() <= u16::MAX && r.value.len() <= u32::MAX
}

pub open spec fn text_fits(s: Seq<char>) -> bool {
    encode_utf8(s).len() <= u16::MAX
}

/// Every length of the request fits its prefix on the wire.
pub open spec fn request_fits(r: RequestView) -> bool {
    match r {
        RequestView::Produce { topic, records, .. } => text_fits(topic) && records.len() <= u16::MAX
            && forall|i: int| 0 <= i < records.len() ==> record_fits(#[trigger] records[i]),
        RequestView::Fetch { topic, .. } => text_fits(topic),
    }
}

/// Every length of the response fits its prefix on the wire.
pub open spec fn response_fits(s: ResponseView) -> bool {
    match s {
        ResponseView::Produce { .. } => true,
        ResponseView::Fetch { items, .. } => items.len() <= u16::MAX && forall|i: int|
            0 <= i < items.len() ==> record_fits(#[trigger] items[i].1),
        ResponseView::Error { message } => text_fits(message),
    }
}

pub open spec fn spec_encode_request(r: RequestView) -> Seq<u8> {
    match r {
        RequestView::Produce { topic, partition, records } => seq![1u8] + str_bytes(topic)
            + u16_bytes(partition) + u16_bytes(records.len() as u16) + records_wire(records),
        RequestView::Fetch { topic, partition, offset, max_bytes } => seq![2u8] + str_bytes(topic)
            + u16_bytes(partition) + i64_bytes(offset) + u32_bytes(max_bytes),
    }
}

pub open spec fn spec_encode_response(s: ResponseView) -> Seq<u8> {
    match s {
        ResponseView::Produce { status, base_offset } => seq![1u8, status] + i64_bytes(base_offset),
        ResponseView::Fetch { status, items } => seq![2u8, status] + u16_bytes(items.len() as u16)
            + items_wire(items),
        ResponseView::Error { message } => seq![255u8] + str_bytes(message),
    }
}

// ---------- decodings ----------

pub open spec fn take_records(b: Seq<u8>, n: nat) -> Option<(Seq<RecordView>, Seq<u8>)>
    decreases n,
{
    if n == 0 {
        Some((Seq::empty(), b))
    } else {
        match take_record(b) {
            Some(((k, v), rest)) => match take_records(rest, (n - 1) as nat) {
                Some((rs, rest2)) => Some((seq![RecordView { key: k, value: v }] + rs, rest2)),
                None => None,
            },
            None => None,
        }
    }
}

pub open spec fn take_items(b: Seq<u8>, n: nat) -> Option<(Seq<(i64, RecordView)>, Seq<u8>)>
    decreases n,
{
    if n == 0 {
        Some((Seq::empty(), b))
    } else {
        match take_i64(b) {
            Some((off, r0)) => match take_record(r0) {
                Some(((k, v), rest)) => match take_items(rest, (n - 1) as nat) {
                    Some((its, rest2)) => Some(
                        (seq![(off, RecordView { key: k, value: v })] + its, rest2),
                    ),
                    None => None,
                },
                None => None,
            },
            None => None,
        }
    }
}

pub open spec fn decode_produce_body(b: Seq<u8>) -> Result<RequestView, ProtoError> {
    match take_str(b) {
        Some((topic, r1)) => match take_u16(r1) {
            Some((partition, r2)) => match take_u16(r2) {
                Some((count, r3)) => match take_records(r3, count as nat) {
                    Some((records, _)) => Ok(RequestView::Produce { topic, partition, records }),
                    None => Err(ProtoError::Eof),
                },
                None => Err(ProtoError::Eof),
            },
            None => Err(ProtoError::Eof),
        },
        None => Err(ProtoError::Eof),
    }
}

pub open spec fn decode_fetch_body(b: Seq<u8>) -> Result<RequestView, ProtoError> {
    match take_str(b) {
        Some((topic, r1)) => match take_u16(r1) {
            Some((partition, r2)) => match take_i64(r2) {
                Some((offset, r3)) => match take_u32(r3) {
                    Some((max_bytes, _)) => Ok(
                        RequestView::Fetch { topic, partition, offset, max_bytes },
                    ),
                    None => Err(ProtoError::Eof),
                },
                None => Err(ProtoError::Eof),
            },
            None => Err(ProtoError::Eof),
        },
        None => Err(ProtoError::Eof),
    }
}

/// What a request payload decodes to; bytes after a complete request are ignored.
pub open spec fn spec_decode_request(b: Seq<u8>) -> Result<RequestView, ProtoError> {
    match take_u8(b) {
        Some((api, rest)) => if api == 1 {
            decode_produce_body(rest)
        } else if api == 2 {
            decode_fetch_body(rest)
        } else {
            Err(ProtoError::InvalidApiKey(api))
        },
        None => Err(ProtoError::Eof),
    }
}

/// What a response payload decodes to; an unknown tag is reported as `InvalidApiKey`.
pub open spec fn spec_decode_response(b: Seq<u8>) -> Result<ResponseView, ProtoError> {
    match take_u8(b) {
        Some((tag, r0)) => if tag == 1 {
            match take_u8(r0) {
                Some((status, r1)) => match take_i64(r1) {
                    Some((base_offset, _)) => Ok(ResponseView::Produce { status, base_offset }),
                    None => Err(ProtoError::Eof),
                },
                None => Err(ProtoError::Eof),
            }
        } else if tag == 2 {
            match take_u8(r0) {
                Some((status, r1)) => match take_u16(r1) {
                    Some((count, r2)) => match take_items(r2, count as nat) {
                        Some((items, _)) => Ok(ResponseView::Fetch { status, items }),
                        None => Err(ProtoError::Eof),
                    },
                    None => Err(ProtoError::Eof),
                },
                None => Err(ProtoError::Eof),
            }
        } else if tag == 255 {
            match take_str(r0) {
                Some((message, _)) => Ok(ResponseView::Error { message }),
                None => Err(ProtoError::Eof),
            }
        } else {
            Err(ProtoError::InvalidApiKey(tag))
        },
        None => Err(ProtoError::Eof),
    }
}


/// `a` in front of the records that the parse `o` found.
pub open spec fn glue_records(
    a: Seq<RecordView>,
    o: Option<(Seq<RecordView>, Seq<u8>)>,
) -> Option<(Seq<RecordView>, Seq<u8>)> {
    match o {
        Some((rs, rest)) => Some((a + rs, rest)),
        None => None,
    }
}

/// Decodes a request payload: the api key, then the fields of that request kind.
pub fn decode_request(payload: Vec<u8>) -> (r: Result<Request, ProtoError>)
    ensures
        match spec_decode_request(payload@) {
            Ok(v) => r is Ok && r->Ok_0@ == v,
            Err(e) => r == Err::<Request, ProtoError>(e),
        },
{
    let ghost input = payload@;
    let mut b = ByteReader::new(payload);
    let api = match read_u8(&mut b) {
        Ok(v) => v,
        Err(_) => return Err(ProtoError::Eof),
    };
    match ApiKey::try_from(api) {
        Ok(ApiKey::Produce) => {
            let topic = match read_str(&mut b) {
                Ok(s) => s,
                Err(_) => return Err(ProtoError::Eof),
            };
            let partition = match read_u16(&mut b) {
                Ok(v) => v,
                Err(_) => return Err(ProtoError::Eof),
            };
            let count = match read_u16(&mut b) {
                Ok(v) => v,
                Err(_) => return Err(ProtoError::Eof),
            };
            let ghost start = b@;
            let mut records: Vec<Record> = Vec::new();
            let mut i: u16 = 0;
            while i < count
                invariant
                    i <= count,
                    input == payload@,
                    spec_decode_request(input) == match take_records(start, count as nat) {
                        Some((rs, _)) => Ok(
                            RequestView::Produce { topic: topic@, partition, records: rs },
                        ),
                        None => Err(ProtoError::Eof),
                    },
                    take_records(start, count as nat) == glue_records(
                        records_view(records@),
                        take_records(b@, (count - i) as nat),
                    ),
                decreases count - i,
            {
                let ghost before = b@;
                let (key, value) = match read_record(&mut b) {
                    Ok(kv) => kv,
                    Err(_) => {
                        assert(take_records(before, (count - i) as nat) is None);
                        return Err(ProtoError::Eof);
                    },
                };
                let rec = Record { key, value };
                let ghost old_view = records_view(records@);
                records.push(rec);
                proof {
                    assert(records_view(records@) =~= old_view.push(rec@));
                    match take_records(b@, (count - i - 1) as nat) {
                        Some((rs, rest)) => {
                            assert(old_view.push(rec@) + rs =~= old_view + (seq![rec@] + rs));
                        },
                        None => {},
                    }
                }
                i = i + 1;
            }
            Ok(Request::Produce(ProduceRequest { topic, partition, records }))
        },
        Ok(ApiKey::Fetch) => {
            let topic = match read_str(&mut b) {
                Ok(s) => s,
                Err(_) => return Err(ProtoError::Eof),
            };
            let partition = match read_u16(&mut b) {
                Ok(v) => v,
                Err(_) => return Err(ProtoError::Eof),
            };
            let offset = match read_i64(&mut b) {
                Ok(v) => v,
                Err(_) => return Err(ProtoError::Eof),
            };
            let max_bytes = match read_u32(&mut b) {
                Ok(v) => v,
                Err(_) => return Err(ProtoError::Eof),
            };
            Ok(Request::Fetch(FetchRequest { topic, partition, offset, max_bytes }))
        },
        Err(x) => Err(ProtoError::InvalidApiKey(x)),
    }
}


pub open spec fn glue_items(
    a: Seq<(i64, RecordView)>,
    o: Option<(Seq<(i64, RecordView)>, Seq<u8>)>,
) -> Option<(Seq<(i64, RecordView)>, Seq<u8>)> {
    match o {
        Some((its, rest)) => Some((a + its, rest)),
        None => None,
    }
}

/// Decodes a response payload, as a client reads it.
pub fn decode_response(payload: Vec<u8>) -> (r: Result<Response, ProtoError>)
    ensures
        match spec_decode_response(payload@) {
            Ok(v) => r is Ok && r->Ok_0@ == v,
            Err(e) => r == Err::<Response, ProtoError>(e),
        },
{
    let ghost input = payload@;
    let mut b = ByteReader::new(payload);
    let tag = match read_u8(&mut b) {
        Ok(v) => v,
        Err(_) => return Err(ProtoError::Eof),
    };
    if tag == 1 {
        let status = match read_u8(&mut b) {
            Ok(v) => v,
            Err(_) => return Err(ProtoError::Eof),
        };
        let base_offset = match read_i64(&mut b) {
            Ok(v) => v,
            Err(_) => return Err(ProtoError::Eof),
        };
        Ok(Response::Produce(ProduceResponse { status, base_offset }))
    } else if tag == 2 {
        let status = match read_u8(&mut b) {
            Ok(v) => v,
            Err(_) => return Err(ProtoError::Eof),
        };
        let count = match read_u16(&mut b) {
            Ok(v) => v,
            Err(_) => return Err(ProtoError::Eof),
        };
        let ghost start = b@;
        let mut items: Vec<(i64, Record)> = Vec::new();
        let mut i: u16 = 0;
        while i < count
            invariant
                i <= count,
                input == payload@,
                spec_decode_response(input) == match take_items(start, count as nat) {
                    Some((its, _)) => Ok(ResponseView::Fetch { status, items: its }),
                    None => Err(ProtoError::Eof),
                },
                take_items(start, count as nat) == glue_items(
                    items_view(items@),
                    take_items(b@, (count - i) as nat),
                ),
            decreases count - i,
        {
            let ghost before = b@;
            let off = match read_i64(&mut b) {
                Ok(v) => v,
                Err(_) => {
                    assert(take_items(before, (count - i) as nat) is None);
                    return Err(ProtoError::Eof);
                },
            };
            let ghost after_off = b@;
            let (key, value) = match read_record(&mut b) {
                Ok(kv) => kv,
                Err(_) => {
                    assert(take_items(before, (count - i) as nat) is None);
                    return Err(ProtoError::Eof);
                },
            };
            let rec = Record { key, value };
            let ghost old_view = items_view(items@);
            items.push((off, rec));
            proof {
                assert(items_view(items@) =~= old_view.push((off, rec@)));
                match take_items(b@, (count - i - 1) as nat) {
                    Some((its, rest)) => {
                        assert(old_view.push((off, rec@)) + its =~= old_view + (seq![(off, rec@)]
                            + its));
                    },
                    None => {},
                }
            }
            i = i + 1;
        }
        Ok(Response::Fetch(FetchResponse { status, items }))
    } else if tag == 255 {
        let message = match read_str(&mut b) {
            Ok(s) => s,
            Err(_) => return Err(ProtoError::Eof),
        };
        Ok(Response::Error { message })
    } else {
        Err(ProtoError::InvalidApiKey(tag))
    }
}

// ---------- encoders ----------

proof fn lemma_records_wire_push(a: Seq<RecordView>, x: RecordView)
    ensures
        records_wire(a.push(x)) == records_wire(a) + record_wire(x),
    decreases a.len(),
{
    if a.len() == 0 {
        assert(a.push(x).drop_first() =~= a);
        assert(records_wire(a) == Seq::<u8>::empty());
        assert(records_wire(a.push(x)) =~= record_wire(x));
    } else {
        assert(a.push(x).drop_first() =~= a.drop_first().push(x));
        lemma_records_wire_push(a.drop_first(), x);
        assert(records_wire(a.push(x)) =~= records_wire(a) + record_wire(x));
    }
}

proof fn lemma_items_wire_push(a: Seq<(i64, RecordView)>, x: (i64, RecordView))
    ensures
        items_wire(a.push(x)) == items_wire(a) + (i64_bytes(x.0) + record_wire(x.1)),
    decreases a.len(),
{
    if a.len() == 0 {
        assert(a.push(x).drop_first() =~= a);
        assert(items_wire(a) == Seq::<u8>::empty());
        assert(items_wire(a.push(x)) =~= i64_bytes(x.0) + record_wire(x.1));
    } else {
        assert(a.push(x).drop_first() =~= a.drop_first().push(x));
        lemma_items_wire_push(a.drop_first(), x);
        assert(items_wire(a.push(x)) =~= items_wire(a) + (i64_bytes(x.0) + record_wire(x.1)));
    }
}

/// Appends `rec` as a key and a value; `false`, writing nothing, where a length does
/// not fit its prefix.
fn put_record(out: &mut Vec<u8>, rec: &Record) -> (ok: bool)
    ensures
        ok == record_fits(rec@),
        ok ==> final(out)@ == old(out)@ + record_wire(rec@),
        !ok ==> final(out)@ == old(out)@,
{
    if rec.key.len() > 65535 || rec.value.len() as u64 > 0xffff_ffffu64 {
        return false;
    }
    put_u16(out, rec.key.len() as u16);
    put_slice(out, rec.key.as_slice());
    put_u32(out, rec.value.len() as u32);
    put_slice(out, rec.value.as_slice());
    assert(out@ =~= old(out)@ + record_wire(rec@));
    true
}

/// Encodes a response payload; fails with `StringTooLong` where a length does not fit
/// its prefix.
pub fn encode_response(resp: Response) -> (r: Result<Vec<u8>, ProtoError>)
    ensures
        response_fits(resp@) ==> r is Ok && r->Ok_0@ == spec_encode_response(resp@),
        !response_fits(resp@) ==> r == Err::<Vec<u8>, ProtoError>(ProtoError::StringTooLong),
{
    let mut out: Vec<u8> = Vec::with_capacity(256);
    match &resp {
        Response::Produce(p) => {
            out.push(1u8);
            out.push(p.status);
            put_i64(&mut out, p.base_offset);
            assert(out@ =~= spec_encode_response(resp@));
        },
        Response::Fetch(f) => {
            let n = f.items.len();
            if n > 65535 {
                return Err(ProtoError::StringTooLong);
            }
            out.push(2u8);
            out.push(f.status);
            put_u16(&mut out, n as u16);
            let ghost head = out@;
            let ghost items = items_view(f.items@);
            let mut i: usize = 0;
            while i < n
                invariant
                    n == f.items@.len(),
                    n <= 65535,
                    i <= n,
                    items == items_view(f.items@),
                    resp@ == (ResponseView::Fetch { status: f.status, items }),
                    out@ == head + items_wire(items.take(i as int)),
                    forall|j: int| 0 <= j < i ==> record_fits(#[trigger] items[j].1),
                decreases n - i,
            {
                let item = &f.items[i];
                put_i64(&mut out, item.0);
                assert(items[i as int].1 == item.1@);
                if !put_record(&mut out, &item.1) {
                    assert(!response_fits(resp@));
                    return Err(ProtoError::StringTooLong);
                }
                proof {
                    assert(items.take(i + 1) =~= items.take(i as int).push(items[i as int]));
                    lemma_items_wire_push(items.take(i as int), items[i as int]);
                }
                i = i + 1;
            }
            assert(items.take(n as int) =~= items);
            assert(out@ =~= spec_encode_response(resp@));
        },
        Response::Error { message } => {
            out.push(255u8);
            match write_str(&mut out, message.as_str()) {
                Ok(()) => {},
                Err(_) => return Err(ProtoError::StringTooLong),
            }
            assert(out@ =~= spec_encode_response(resp@));
        },
    }
    Ok(out)
}

/// Encodes a request payload, as a client sends it; fails with `StringTooLong` where a
/// length does not fit its prefix.
pub fn encode_request(req: &Request) -> (r: Result<Vec<u8>, ProtoError>)
    ensures
        request_fits(req@) ==> r is Ok && r->Ok_0@ == spec_encode_request(req@),
        !request_fits(req@) ==> r == Err::<Vec<u8>, ProtoError>(ProtoError::StringTooLong),
{
    let mut out: Vec<u8> = Vec::with_capacity(64);
    match req {
        Request::Produce(p) => {
            out.push(1u8);
            match write_str(&mut out, p.topic.as_str()) {
                Ok(()) => {},
                Err(_) => return Err(ProtoError::StringTooLong),
            }
            put_u16(&mut out, p.partition);
            let n = p.records.len();
            if n > 65535 {
                return Err(ProtoError::StringTooLong);
            }
            put_u16(&mut out, n as u16);
            let ghost head = out@;
            let ghost recs = records_view(p.records@);
            let mut i: usize = 0;
            while i < n
                invariant
                    n == p.records@.len(),
                    i <= n,
                    recs == records_view(p.records@),
                    req@ == (RequestView::Produce {
                        topic: p.topic@,
                        partition: p.partition,
                        records: recs,
                    }),
                    out@ == head + records_wire(recs.take(i as int)),
                    forall|j: int| 0 <= j < i ==> record_fits(#[trigger] recs[j]),
                decreases n - i,
            {
                assert(recs[i as int] == p.records@[i as int]@);
                if !put_record(&mut out, &p.records[i]) {
                    assert(!request_fits(req@));
                    return Err(ProtoError::StringTooLong);
                }
                proof {
                    assert(recs.take(i + 1) =~= recs.take(i as int).push(recs[i as int]));
                    lemma_records_wire_push(recs.take(i as int), recs[i as int]);
                }
                i = i + 1;
            }
            assert(recs.take(n as int) =~= recs);
            assert(out@ =~= spec_encode_request(req@));
        },
        Request::Fetch(f) => {
            out.push(2u8);
            match write_str(&mut out, f.topic.as_str()) {
                Ok(()) => {},
                Err(_) => return Err(ProtoError::StringTooLong),
            }
            put_u16(&mut out, f.partition);
            put_i64(&mut out, f.offset);
            put_u32(&mut out, f.max_bytes);
            assert(out@ =~= spec_encode_request(req@));
        },
    }
    Ok(out)
}


/// A payload whose first byte is neither 1 nor 2 fails to decode with `InvalidApiKey`
/// of that byte.
pub proof fn lemma_unknown_api_key(b: Seq<u8>)
    requires
        b.len() >= 1,
        b[0] != 1,
        b[0] != 2,
    ensures
        spec_decode_request(b) == Err::<RequestView, ProtoError>(ProtoError::InvalidApiKey(b[0])),
{
}

// ---------- round trips ----------

proof fn lemma_take_records_wire(rs: Seq<RecordView>, rest: Seq<u8>)
    requires
        forall|i: int| 0 <= i < rs.len() ==> record_fits(#[trigger] rs[i]),
    ensures
        take_records(records_wire(rs) + rest, rs.len()) == Some((rs, rest)),
    decreases rs.len(),
{
    if rs.len() == 0 {
        assert(records_wire(rs) + rest =~= rest);
        assert(rs =~= Seq::<RecordView>::empty());
    } else {
        let tail = rs.drop_first();
        let x = rs[0];
        assert forall|i: int| 0 <= i < tail.len() implies record_fits(#[trigger] tail[i]) by {
            assert(tail[i] == rs[i + 1]);
        }
        lemma_take_records_wire(tail, rest);
        assert(record_fits(x));
        let t = records_wire(tail) + rest;
        let b = records_wire(rs) + rest;
        assert(b =~= key_bytes(x.key) + value_bytes(x.value) + t);
        lemma_record_round_trip(x.key, x.value, t);
        assert(take_record(b) == Some(((x.key, x.value), t)));
        assert(take_records(t, (rs.len() - 1) as nat) == Some((tail, rest)));
        assert(seq![x] + tail =~= rs);
    }
}

proof fn lemma_take_items_wire(items: Seq<(i64, RecordView)>, rest: Seq<u8>)
    requires
        forall|i: int| 0 <= i < items.len() ==> record_fits(#[trigger] items[i].1),
    ensures
        take_items(items_wire(items) + rest, items.len()) == Some((items, rest)),
    decreases items.len(),
{
    if items.len() == 0 {
        assert(items_wire(items) + rest =~= rest);
        assert(items =~= Seq::<(i64, RecordView)>::empty());
    } else {
        let tail = items.drop_first();
        let x = items[0];
        assert forall|i: int| 0 <= i < tail.len() implies record_fits(#[trigger] tail[i].1) by {
            assert(tail[i] == items[i + 1]);
        }
        lemma_take_items_wire(tail, rest);
        assert(record_fits(x.1));
        let t = items_wire(tail) + rest;
        let after = key_bytes(x.1.key) + value_bytes(x.1.value) + t;
        let b = items_wire(items) + rest;
        assert(b =~= i64_bytes(x.0) + after);
        lemma_i64_round_trip(x.0, after);
        assert(take_i64(b) == Some((x.0, after)));
        lemma_record_round_trip(x.1.key, x.1.value, t);
        assert(take_record(after) == Some(((x.1.key, x.1.value), t)));
        assert(take_items(t, (items.len() - 1) as nat) == Some((tail, rest)));
        assert(seq![x] + tail =~= items);
    }
}

/// Decoding the encoding of a request whose lengths fit their prefixes gives the same
/// request back.
pub proof fn lemma_request_round_trip(r: RequestView)
    requires
        request_fits(r),
    ensures
        spec_decode_request(spec_encode_request(r)) == Ok::<RequestView, ProtoError>(r),
{
    let b = spec_encode_request(r);
    match r {
        RequestView::Produce { topic, partition, records } => {
            let n = records.len() as u16;
            let z = records_wire(records);
            let y = u16_bytes(n) + z;
            let x = u16_bytes(partition) + y;
            assert(b.skip(1) =~= str_bytes(topic) + x);
            lemma_str_round_trip(topic, x);
            lemma_u16_round_trip(partition, y);
            lemma_u16_round_trip(n, z);
            assert(z + Seq::<u8>::empty() =~= z);
            lemma_take_records_wire(records, Seq::empty());
        },
        RequestView::Fetch { topic, partition, offset, max_bytes } => {
            let z = u32_bytes(max_bytes);
            let y = i64_bytes(offset) + z;
            let x = u16_bytes(partition) + y;
            assert(b.skip(1) =~= str_bytes(topic) + x);
            lemma_str_round_trip(topic, x);
            lemma_u16_round_trip(partition, y);
            lemma_i64_round_trip(offset, z);
            assert(z + Seq::<u8>::empty() =~= z);
            lemma_u32_round_trip(max_bytes, Seq::empty());
        },
    }
}

/// Decoding the encoding of a response whose lengths fit their prefixes gives the same
/// response back.
pub proof fn lemma_response_round_trip(s: ResponseView)
    requires
        response_fits(s),
    ensures
        spec_decode_response(spec_encode_response(s)) == Ok::<ResponseView, ProtoError>(s),
{
    let b = spec_encode_response(s);
    match s {
        ResponseView::Produce { status, base_offset } => {
            assert(b.skip(1).skip(1) =~= i64_bytes(base_offset) + Seq::<u8>::empty());
            lemma_i64_round_trip(base_offset, Seq::empty());
        },
        ResponseView::Fetch { status, items } => {
            let n = items.len() as u16;
            let z = items_wire(items);
            assert(b.skip(1).skip(1) =~= u16_bytes(n) + z);
            lemma_u16_round_trip(n, z);
            assert(z + Seq::<u8>::empty() =~= z);
            lemma_take_items_wire(items, Seq::empty());
        },
        ResponseView::Error { message } => {
            assert(b.skip(1) =~= str_bytes(message) + Seq::<u8>::empty());
            lemma_str_round_trip(message, Seq::empty());
        },
    }
}

} // verus!
