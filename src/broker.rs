//! What the broker answers: the responses built from the outcome of an append or a
//! fetch, the error texts, the log file naming, and the frames that carry messages.
use vstd::prelude::*;
use vstd::string::StringExecFns;
use vstd::utf8::{encode_utf8, is_ascii_chars, is_ascii_chars_encode_utf8};
use crate::protocol::{encode_response, response_fits, spec_encode_response, 
    Record, Response, ProduceResponse, FetchResponse, ProtoError, ResponseView, items_view,
};
use crate::storage::StorageError;
use crate::wire::{decimal, decimal_text, u32_at, u32_bytes, get_u32, put_u32, put_slice};

verus! {

/// The largest payload a frame may declare: 8 MiB.
pub const MAX_FRAME_SIZE: u32 = 8388608;

pub open spec fn proto_error_text(e: ProtoError) -> Seq<char> {
    match e {
        ProtoError::Eof => "unexpected EOF"@,
        ProtoError::InvalidApiKey(x) => "invalid api key: "@ + decimal(x as nat),
        ProtoError::StringTooLong => "string too long"@,
    }
}

pub open spec fn storage_error_text(e: StorageError) -> Seq<char> {
    match e {
        StorageError::Io(m) => "io: "@ + m@,
        StorageError::Corrupted => "corrupted log"@,
    }
}

impl ProtoError {
    /// The text that describes the error.
    pub fn message(&self) -> (r: String)
        ensures
            r@ == proto_error_text(*self),
    {
        match self {
            ProtoError::Eof => String::from_str("unexpected EOF"),
            ProtoError::InvalidApiKey(x) => {
                let mut s = String::from_str("invalid api key: ");
                let digits = decimal_text(*x as u64);
                s.append(digits.as_str());
                s
            },
            ProtoError::StringTooLong => String::from_str("string too long"),
        }
    }
}

impl StorageError {
    /// The text that describes the error.
    pub fn message(&self) -> (r: String)
        ensures
            r@ == storage_error_text(*self),
    {
        match self {
            StorageError::Io(m) => {
                let mut s = String::from_str("io: ");
                s.append(m.as_str());
                s
            },
            StorageError::Corrupted => String::from_str("corrupted log"),
        }
    }
}

/// `prefix` followed by `text`, as an error response.
fn error_response(prefix: &str, text: String) -> (r: Response)
    ensures
        r@ == (ResponseView::Error { message: prefix@ + text@ }),
{
    let mut message = String::from_str(prefix);
    message.append(text.as_str());
    Response::Error { message }
}

/// The answer to a request that did not decode.
pub fn invalid_request_response(e: &ProtoError) -> (r: Response)
    ensures
        r@ == (ResponseView::Error { message: "invalid request: "@ + proto_error_text(*e) }),
{
    error_response("invalid request: ", e.message())
}

/// The answer to a request whose partition log could not be opened.
pub fn open_error_response(e: &StorageError) -> (r: Response)
    ensures
        r@ == (ResponseView::Error { message: storage_error_text(*e) }),
{
    Response::Error { message: e.message() }
}

/// The answer to a produce request, from the outcome of the append.
pub fn produce_response(result: Result<i64, StorageError>) -> (r: Response)
    ensures
        match result {
            Ok(base) => r@ == (ResponseView::Produce { status: 0, base_offset: base }),
            Err(e) => r@ == (ResponseView::Error {
                message: "append error: "@ + storage_error_text(e),
            }),
        },
{
    match result {
        Ok(base) => Response::Produce(ProduceResponse { status: 0, base_offset: base }),
        Err(e) => error_response("append error: ", e.message()),
    }
}

/// The answer to a fetch request, from the outcome of the fetch.
pub fn fetch_response(result: Result<Vec<(i64, Record)>, StorageError>) -> (r: Response)
    ensures
        match result {
            Ok(items) => r@ == (ResponseView::Fetch { status: 0, items: items_view(items@) }),
            Err(e) => r@ == (ResponseView::Error {
                message: "fetch error: "@ + storage_error_text(e),
            }),
        },
{
    match result {
        Ok(items) => Response::Fetch(FetchResponse { status: 0, items }),
        Err(e) => error_response("fetch error: ", e.message()),
    }
}

/// The reply payload for `resp`: its encoding, or, where a length of it does not fit
/// its prefix, the encoding of an error response that says so.
pub fn encode_reply(resp: Response) -> (r: Vec<u8>)
    ensures
        response_fits(resp@) ==> r@ == spec_encode_response(resp@),
        !response_fits(resp@) ==> r@ == spec_encode_response(
            ResponseView::Error {
                message: "encode error: "@ + proto_error_text(ProtoError::StringTooLong),
            },
        ),
{
    match encode_response(resp) {
        Ok(bytes) => bytes,
        Err(e) => {
            let err = error_response("encode error: ", e.message());
            proof {
                reveal_strlit("encode error: ");
                reveal_strlit("string too long");
                let m = err@->Error_message;
                assert(m.len() == 29);
                assert(is_ascii_chars(m));
                is_ascii_chars_encode_utf8(m);
            }
            match encode_response(err) {
                Ok(bytes) => bytes,
                Err(_) => Vec::new(),
            }
        },
    }
}

/// The name of the log file of a partition: `<topic>-<partition>.log`.
pub fn log_file_name(topic: &str, partition: u16) -> (r: String)
    ensures
        r@ == topic@ + "-"@ + decimal(partition as nat) + ".log"@,
{
    let mut s = String::from_str(topic);
    s.append("-");
    let digits = decimal_text(partition as u64);
    s.append(digits.as_str());
    s.append(".log");
    s
}

/// The payload length that a frame's 4-byte header declares, or `None` where it is over
/// `MAX_FRAME_SIZE`.
pub fn frame_length(header: &[u8]) -> (r: Option<u32>)
    requires
        header@.len() == 4,
    ensures
        u32_at(header@, 0) <= MAX_FRAME_SIZE ==> r == Some(u32_at(header@, 0)),
        u32_at(header@, 0) > MAX_FRAME_SIZE ==> r is None,
{
    let len = get_u32(header, 0);
    if len > MAX_FRAME_SIZE {
        None
    } else {
        Some(len)
    }
}

/// A frame: the payload behind its big-endian `u32` length.
pub fn encode_frame(payload: &[u8]) -> (r: Vec<u8>)
    requires
        payload@.len() <= u32::MAX,
    ensures
        r@ == u32_bytes(payload@.len() as u32) + payload@,
{
    let mut out: Vec<u8> = Vec::new();
    put_u32(&mut out, payload.len() as u32);
    put_slice(&mut out, payload);
    out
}

} // verus!
