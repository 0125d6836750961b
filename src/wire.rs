//! Big-endian primitives of the wire and disk formats: integers, length-prefixed
//! strings and byte strings, a reading cursor and the matching writers.
use vstd::prelude::*;
use vstd::utf8::{decode_utf8, encode_utf8, valid_utf8};

verus! {

broadcast use vstd::utf8::encode_utf8_valid_utf8, vstd::utf8::encode_utf8_decode_utf8;

/// Errors of the primitive readers and writers.
#[derive(Debug, Clone, Copy, PartialEq, Eq, Structural)]
pub enum IoError {
    Eof,
    InvalidApiKey(u8),
    StringTooLong,
}

// ---------- integers ----------

pub open spec fn u16_bytes(v: u16) -> Seq<u8> {
    seq![(v >> 8u16) as u8, v as u8]
}

pub open spec fn u32_bytes(v: u32) -> Seq<u8> {
    seq![(v >> 24u32) as u8, (v >> 16u32) as u8, (v >> 8u32) as u8, v as u8]
}

pub open spec fn u64_bytes(v: u64) -> Seq<u8> {
    seq![
        (v >> 56u64) as u8,
        (v >> 48u64) as u8,
        (v >> 40u64) as u8,
        (v >> 32u64) as u8,
        (v >> 24u64) as u8,
        (v >> 16u64) as u8,
        (v >> 8u64) as u8,
        v as u8,
    ]
}

pub open spec fn i64_bytes(v: i64) -> Seq<u8> {
    u64_bytes(v as u64)
}

/// The big-endian `u16` that starts at `i`.
#[verifier::opaque]
pub open spec fn u16_at(b: Seq<u8>, i: int) -> u16 {
    ((b[i] as u16) << 8u16) | (b[i + 1] as u16)
}

#[verifier::opaque]
pub open spec fn u32_at(b: Seq<u8>, i: int) -> u32 {
    ((b[i] as u32) << 24u32) | ((b[i + 1] as u32) << 16u32) | ((b[i + 2] as u32) << 8u32) | (
    b[i + 3] as u32)
}

#[verifier::opaque]
pub open spec fn u64_at(b: Seq<u8>, i: int) -> u64 {
    ((b[i] as u64) << 56u64) | ((b[i + 1] as u64) << 48u64) | ((b[i + 2] as u64) << 40u64) | ((b[i
        + 3] as u64) << 32u64) | ((b[i + 4] as u64) << 24u64) | ((b[i + 5] as u64) << 16u64) | ((b[i
        + 6] as u64) << 8u64) | (b[i + 7] as u64)
}

pub open spec fn i64_at(b: Seq<u8>, i: int) -> i64 {
    u64_at(b, i) as i64
}

pub proof fn lemma_u16_round_trip(v: u16, rest: Seq<u8>)
    ensures
        u16_at(u16_bytes(v) + rest, 0) == v,
        (u16_bytes(v) + rest).skip(2) == rest,
{
    reveal(u16_at);
    let b = u16_bytes(v) + rest;
    assert(b[0] == (v >> 8u16) as u8 && b[1] == v as u8);
    assert(((((v >> 8u16) as u8) as u16) << 8u16) | (((v as u8) as u16)) == v) by (bit_vector);
    assert(b.skip(2) =~= rest);
}

pub proof fn lemma_u32_round_trip(v: u32, rest: Seq<u8>)
    ensures
        u32_at(u32_bytes(v) + rest, 0) == v,
        (u32_bytes(v) + rest).skip(4) == rest,
{
    reveal(u32_at);
    let b = u32_bytes(v) + rest;
    assert(b[0] == (v >> 24u32) as u8 && b[1] == (v >> 16u32) as u8 && b[2] == (v >> 8u32) as u8
        && b[3] == v as u8);
    assert(((((v >> 24u32) as u8) as u32) << 24u32) | ((((v >> 16u32) as u8) as u32) << 16u32) | ((((
    v >> 8u32) as u8) as u32) << 8u32) | (((v as u8) as u32)) == v) by (bit_vector);
    assert(b.skip(4) =~= rest);
}

pub proof fn lemma_i64_round_trip(v: i64, rest: Seq<u8>)
    ensures
        i64_at(i64_bytes(v) + rest, 0) == v,
        (i64_bytes(v) + rest).skip(8) == rest,
{
    reveal(u64_at);
    let u = v as u64;
    let b = i64_bytes(v) + rest;
    assert(b[0] == (u >> 56u64) as u8 && b[1] == (u >> 48u64) as u8 && b[2] == (u >> 40u64) as u8
        && b[3] == (u >> 32u64) as u8 && b[4] == (u >> 24u64) as u8 && b[5] == (u >> 16u64) as u8
        && b[6] == (u >> 8u64) as u8 && b[7] == u as u8);
    assert(((((u >> 56u64) as u8) as u64) << 56u64) | ((((u >> 48u64) as u8) as u64) << 48u64) | ((((
    u >> 40u64) as u8) as u64) << 40u64) | ((((u >> 32u64) as u8) as u64) << 32u64) | ((((u
        >> 24u64) as u8) as u64) << 24u64) | ((((u >> 16u64) as u8) as u64) << 16u64) | ((((u
        >> 8u64) as u8) as u64) << 8u64) | (((u as u8) as u64)) == u) by (bit_vector);
    assert(((v as u64) as i64) == v) by (bit_vector);
    assert(b.skip(8) =~= rest);
}

/// Writing back what was read at `i` gives the same bytes.
pub proof fn lemma_bytes_at(b: Seq<u8>, i: int)
    requires
        0 <= i,
    ensures
        i + 2 <= b.len() ==> u16_bytes(u16_at(b, i)) == b.subrange(i, i + 2),
        i + 4 <= b.len() ==> u32_bytes(u32_at(b, i)) == b.subrange(i, i + 4),
        i + 8 <= b.len() ==> i64_bytes(i64_at(b, i)) == b.subrange(i, i + 8),
{
    reveal(u16_at);
    reveal(u32_at);
    reveal(u64_at);
    if i + 2 <= b.len() {
        let (x0, x1) = (b[i], b[i + 1]);
        let v = ((x0 as u16) << 8u16) | (x1 as u16);
        assert((v >> 8u16) as u8 == x0 && v as u8 == x1) by (bit_vector)
            requires
                v == ((x0 as u16) << 8u16) | (x1 as u16),
        ;
        assert(u16_bytes(v) =~= b.subrange(i, i + 2));
    }
    if i + 4 <= b.len() {
        let (x0, x1, x2, x3) = (b[i], b[i + 1], b[i + 2], b[i + 3]);
        let v = ((x0 as u32) << 24u32) | ((x1 as u32) << 16u32) | ((x2 as u32) << 8u32) | (x3 as u32);
        assert((v >> 24u32) as u8 == x0 && (v >> 16u32) as u8 == x1 && (v >> 8u32) as u8 == x2
            && v as u8 == x3) by (bit_vector)
            requires
                v == ((x0 as u32) << 24u32) | ((x1 as u32) << 16u32) | ((x2 as u32) << 8u32) | (
                x3 as u32),
        ;
        assert(u32_bytes(v) =~= b.subrange(i, i + 4));
    }
    if i + 8 <= b.len() {
        let (x0, x1, x2, x3) = (b[i], b[i + 1], b[i + 2], b[i + 3]);
        let (x4, x5, x6, x7) = (b[i + 4], b[i + 5], b[i + 6], b[i + 7]);
        let v = ((x0 as u64) << 56u64) | ((x1 as u64) << 48u64) | ((x2 as u64) << 40u64) | ((
        x3 as u64) << 32u64) | ((x4 as u64) << 24u64) | ((x5 as u64) << 16u64) | ((x6 as u64)
            << 8u64) | (x7 as u64);
        assert((v >> 56u64) as u8 == x0 && (v >> 48u64) as u8 == x1 && (v >> 40u64) as u8 == x2
            && (v >> 32u64) as u8 == x3 && (v >> 24u64) as u8 == x4 && (v >> 16u64) as u8 == x5 && (v
            >> 8u64) as u8 == x6 && v as u8 == x7) by (bit_vector)
            requires
                v == ((x0 as u64) << 56u64) | ((x1 as u64) << 48u64) | ((x2 as u64) << 40u64) | ((
                x3 as u64) << 32u64) | ((x4 as u64) << 24u64) | ((x5 as u64) << 16u64) | ((x6
                    as u64) << 8u64) | (x7 as u64),
        ;
        assert(((v as i64) as u64) == v) by (bit_vector);
        assert(i64_bytes(i64_at(b, i)) =~= b.subrange(i, i + 8));
    }
}

/// Reading at `k` is reading at the start of what follows `k`.
pub proof fn lemma_at_skip(b: Seq<u8>, k: int)
    requires
        0 <= k <= b.len(),
    ensures
        k + 2 <= b.len() ==> u16_at(b.skip(k), 0) == u16_at(b, k),
        k + 4 <= b.len() ==> u32_at(b.skip(k), 0) == u32_at(b, k),
        k + 8 <= b.len() ==> i64_at(b.skip(k), 0) == i64_at(b, k),
{
    reveal(u16_at);
    reveal(u32_at);
    reveal(u64_at);
}

/// Reading inside `b` is not changed by bytes that follow it.
pub proof fn lemma_at_extend(b: Seq<u8>, e: Seq<u8>, i: int)
    requires
        0 <= i,
    ensures
        i + 2 <= b.len() ==> u16_at(b + e, i) == u16_at(b, i),
        i + 4 <= b.len() ==> u32_at(b + e, i) == u32_at(b, i),
        i + 8 <= b.len() ==> i64_at(b + e, i) == i64_at(b, i),
{
    reveal(u16_at);
    reveal(u32_at);
    reveal(u64_at);
    if i + 2 <= b.len() {
        assert((b + e)[i] == b[i] && (b + e)[i + 1] == b[i + 1]);
    }
    if i + 4 <= b.len() {
        assert((b + e)[i + 2] == b[i + 2] && (b + e)[i + 3] == b[i + 3]);
    }
    if i + 8 <= b.len() {
        assert((b + e)[i + 4] == b[i + 4] && (b + e)[i + 5] == b[i + 5]);
        assert((b + e)[i + 6] == b[i + 6] && (b + e)[i + 7] == b[i + 7]);
    }
}

/// The big-endian `u16` at `i` of a slice.
pub(crate) fn get_u16(b: &[u8], i: usize) -> (r: u16)
    requires
        i + 2 <= b@.len(),
    ensures
        r == u16_at(b@, i as int),
{
    proof {
        reveal(u16_at);
    }
    ((b[i] as u16) << 8u16) | (b[i + 1] as u16)
}

pub(crate) fn get_u32(b: &[u8], i: usize) -> (r: u32)
    requires
        i + 4 <= b@.len(),
    ensures
        r == u32_at(b@, i as int),
{
    proof {
        reveal(u32_at);
    }
    ((b[i] as u32) << 24u32) | ((b[i + 1] as u32) << 16u32) | ((b[i + 2] as u32) << 8u32) | (b[i
        + 3] as u32)
}

pub(crate) fn get_i64(b: &[u8], i: usize) -> (r: i64)
    requires
        i + 8 <= b@.len(),
    ensures
        r == i64_at(b@, i as int),
{
    proof {
        reveal(u64_at);
    }
    (((b[i] as u64) << 56u64) | ((b[i + 1] as u64) << 48u64) | ((b[i + 2] as u64) << 40u64) | ((b[i
        + 3] as u64) << 32u64) | ((b[i + 4] as u64) << 24u64) | ((b[i + 5] as u64) << 16u64) | ((b[i
        + 6] as u64) << 8u64) | (b[i + 7] as u64)) as i64
}

/// Copies `b[i..j]`.
pub(crate) fn copy_range(b: &[u8], i: usize, j: usize) -> (r: Vec<u8>)
    requires
        i <= j <= b@.len(),
    ensures
        r@ == b@.subrange(i as int, j as int),
{
    let mut r: Vec<u8> = Vec::with_capacity(j - i);
    let mut k: usize = i;
    while k < j
        invariant
            i <= k <= j,
            j <= b@.len(),
            r@ == b@.subrange(i as int, k as int),
        decreases j - k,
    {
        r.push(b[k]);
        k = k + 1;
        assert(r@ =~= b@.subrange(i as int, k as int));
    }
    r
}

// ---------- text ----------

/// What `String::from_utf8_lossy` makes of bytes that are not valid UTF-8.
pub uninterp spec fn lossy_text(b: Seq<u8>) -> Seq<char>;

/// The text that a string field carrying the bytes `b` decodes to: the UTF-8 decoding
/// where `b` is valid, the lossy repair otherwise.
pub open spec fn text_of(b: Seq<u8>) -> Seq<char> {
    if valid_utf8(b) {
        decode_utf8(b)
    } else {
        lossy_text(b)
    }
}

/// Relies on `String::from_utf8_lossy`: valid UTF-8 is decoded as it stands, and
/// invalid input is repaired with replacement characters, a function of the bytes alone.
#[verifier::external_body]
fn utf8_lossy(b: &[u8]) -> (r: String)
    ensures
        valid_utf8(b@) ==> r@ == decode_utf8(b@),
        !valid_utf8(b@) ==> r@ == lossy_text(b@),
{
    String::from_utf8_lossy(b).into_owned()
}

pub open spec fn str_bytes(s: Seq<char>) -> Seq<u8> {
    u16_bytes(encode_utf8(s).len() as u16) + encode_utf8(s)
}

/// The decimal digits of `n`.
pub open spec fn decimal(n: nat) -> Seq<char>
    decreases n,
{
    let d = seq!['0', '1', '2', '3', '4', '5', '6', '7', '8', '9'][(n % 10) as int];
    if n < 10 {
        seq![d]
    } else {
        decimal(n / 10).push(d)
    }
}

/// Relies on `u64::to_string`: the decimal digits of the number, without sign or padding.
#[verifier::external_body]
pub(crate) fn decimal_text(n: u64) -> (r: String)
    ensures
        r@ == decimal(n as nat),
{
    n.to_string()
}


// ---------- parsers over the unread bytes ----------

pub open spec fn take_u8(b: Seq<u8>) -> Option<(u8, Seq<u8>)> {
    if b.len() >= 1 {
        Some((b[0], b.skip(1)))
    } else {
        None
    }
}

pub open spec fn take_u16(b: Seq<u8>) -> Option<(u16, Seq<u8>)> {
    if b.len() >= 2 {
        Some((u16_at(b, 0), b.skip(2)))
    } else {
        None
    }
}

pub open spec fn take_u32(b: Seq<u8>) -> Option<(u32, Seq<u8>)> {
    if b.len() >= 4 {
        Some((u32_at(b, 0), b.skip(4)))
    } else {
        None
    }
}

pub open spec fn take_i64(b: Seq<u8>) -> Option<(i64, Seq<u8>)> {
    if b.len() >= 8 {
        Some((i64_at(b, 0), b.skip(8)))
    } else {
        None
    }
}

pub open spec fn take_bytes(b: Seq<u8>, n: nat) -> Option<(Seq<u8>, Seq<u8>)> {
    if b.len() >= n {
        Some((b.take(n as int), b.skip(n as int)))
    } else {
        None
    }
}

/// Bytes behind a `u16` length.
pub open spec fn take_key(b: Seq<u8>) -> Option<(Seq<u8>, Seq<u8>)> {
    match take_u16(b) {
        Some((n, rest)) => take_bytes(rest, n as nat),
        None => None,
    }
}

/// Bytes behind a `u32` length.
pub open spec fn take_value(b: Seq<u8>) -> Option<(Seq<u8>, Seq<u8>)> {
    match take_u32(b) {
        Some((n, rest)) => take_bytes(rest, n as nat),
        None => None,
    }
}

/// A string: its UTF-8 bytes behind a `u16` length.
pub open spec fn take_str(b: Seq<u8>) -> Option<(Seq<char>, Seq<u8>)> {
    match take_key(b) {
        Some((s, rest)) => Some((text_of(s), rest)),
        None => None,
    }
}

/// A key and then a value.
pub open spec fn take_record(b: Seq<u8>) -> Option<((Seq<u8>, Seq<u8>), Seq<u8>)> {
    match take_key(b) {
        Some((k, rest)) => match take_value(rest) {
            Some((v, rest2)) => Some(((k, v), rest2)),
            None => None,
        },
        None => None,
    }
}

/// `r` and the bytes left unread, `after`, are what the parse `p` of `before` gives:
/// its value and rest, or `Eof` with nothing consumed.
pub open spec fn read_as<T>(
    r: Result<T, IoError>,
    before: Seq<u8>,
    after: Seq<u8>,
    p: Option<(T, Seq<u8>)>,
) -> bool {
    match p {
        Some((v, rest)) => r == Ok::<T, IoError>(v) && after == rest,
        None => r == Err::<T, IoError>(IoError::Eof) && after == before,
    }
}

/// Like `read_as`, for a result held in a `Vec<u8>`.
pub open spec fn read_bytes_as(
    r: Result<Vec<u8>, IoError>,
    before: Seq<u8>,
    after: Seq<u8>,
    p: Option<(Seq<u8>, Seq<u8>)>,
) -> bool {
    match p {
        Some((v, rest)) => r is Ok && r->Ok_0@ == v && after == rest,
        None => r == Err::<Vec<u8>, IoError>(IoError::Eof) && after == before,
    }
}

// ---------- reading cursor ----------

/// A cursor over a byte buffer; its view is the bytes not read yet.
pub struct ByteReader {
    data: Vec<u8>,
    pos: usize,
}

impl View for ByteReader {
    type V = Seq<u8>;

    closed spec fn view(&self) -> Seq<u8> {
        self.data@.subrange(self.pos as int, self.data@.len() as int)
    }
}

impl ByteReader {
    #[verifier::type_invariant]
    spec fn inv(&self) -> bool {
        self.pos <= self.data@.len() <= usize::MAX
    }

    pub fn new(data: Vec<u8>) -> (r: Self)
        ensures
            r@ == data@,
    {
        let _ = data.len();
        let r = ByteReader { data, pos: 0 };
        assert(r@ =~= r.data@);
        r
    }

    /// Number of bytes not read yet.
    pub fn remaining(&self) -> (n: usize)
        ensures
            n == self@.len(),
    {
        proof {
            use_type_invariant(self);
        }
        self.data.len() - self.pos
    }

    /// The unread byte at `i`.
    fn peek(&self, i: usize) -> (r: u8)
        requires
            i < self@.len(),
        ensures
            r == self@[i as int],
    {
        proof {
            use_type_invariant(self);
        }
        assert(self@.len() == self.data@.len() - self.pos);
        self.data[self.pos + i]
    }

    fn peek_u16(&self, i: usize) -> (r: u16)
        requires
            i + 2 <= self@.len(),
        ensures
            r == u16_at(self@, i as int),
    {
        proof {
            use_type_invariant(self);
            reveal(u16_at);
        }
        ((self.peek(i) as u16) << 8u16) | (self.peek(i + 1) as u16)
    }

    fn peek_u32(&self, i: usize) -> (r: u32)
        requires
            i + 4 <= self@.len(),
        ensures
            r == u32_at(self@, i as int),
    {
        proof {
            use_type_invariant(self);
            reveal(u32_at);
        }
        ((self.peek(i) as u32) << 24u32) | ((self.peek(i + 1) as u32) << 16u32) | ((self.peek(i + 2)
            as u32) << 8u32) | (self.peek(i + 3) as u32)
    }

    /// Moves past `n` bytes.
    fn advance(&mut self, n: usize)
        requires
            n <= old(self)@.len(),
        ensures
            final(self)@ == old(self)@.skip(n as int),
    {
        proof {
            use_type_invariant(&*self);
        }
        assert(self@.len() == self.data@.len() - self.pos);
        self.pos = self.pos + n;
        assert(self@ =~= old(self)@.skip(n as int));
    }

    /// Copies out the next `n` bytes and moves past them.
    fn take_vec(&mut self, n: usize) -> (r: Vec<u8>)
        requires
            n <= old(self)@.len(),
        ensures
            r@ == old(self)@.take(n as int),
            final(self)@ == old(self)@.skip(n as int),
    {
        proof {
            use_type_invariant(&*self);
        }
        let mut r: Vec<u8> = Vec::with_capacity(n);
        let mut i: usize = 0;
        while i < n
            invariant
                i <= n,
                n <= self@.len(),
                r@ == self@.take(i as int),
            decreases n - i,
        {
            let x = self.peek(i);
            r.push(x);
            i = i + 1;
            assert(r@ =~= self@.take(i as int));
        }
        self.advance(n);
        r
    }
}

pub fn ensure_remaining(buf: &ByteReader, n: usize) -> (r: Result<(), IoError>)
    ensures
        r == (if buf@.len() >= n {
            Ok::<(), IoError>(())
        } else {
            Err(IoError::Eof)
        }),
{
    if buf.remaining() < n {
        Err(IoError::Eof)
    } else {
        Ok(())
    }
}

pub fn read_u8(buf: &mut ByteReader) -> (r: Result<u8, IoError>)
    ensures
        read_as(r, old(buf)@, final(buf)@, take_u8(old(buf)@)),
{
    ensure_remaining(buf, 1)?;
    let v = buf.peek(0);
    buf.advance(1);
    Ok(v)
}

pub fn read_u16(buf: &mut ByteReader) -> (r: Result<u16, IoError>)
    ensures
        read_as(r, old(buf)@, final(buf)@, take_u16(old(buf)@)),
{
    ensure_remaining(buf, 2)?;
    let v = buf.peek_u16(0);
    buf.advance(2);
    Ok(v)
}

pub fn read_u32(buf: &mut ByteReader) -> (r: Result<u32, IoError>)
    ensures
        read_as(r, old(buf)@, final(buf)@, take_u32(old(buf)@)),
{
    ensure_remaining(buf, 4)?;
    let v = buf.peek_u32(0);
    buf.advance(4);
    Ok(v)
}

pub fn read_i64(buf: &mut ByteReader) -> (r: Result<i64, IoError>)
    ensures
        read_as(r, old(buf)@, final(buf)@, take_i64(old(buf)@)),
{
    ensure_remaining(buf, 8)?;
    proof {
        reveal(u64_at);
    }
    let v = ((buf.peek(0) as u64) << 56u64) | ((buf.peek(1) as u64) << 48u64) | ((buf.peek(2) as u64)
        << 40u64) | ((buf.peek(3) as u64) << 32u64) | ((buf.peek(4) as u64) << 24u64) | ((buf.peek(5)
        as u64) << 16u64) | ((buf.peek(6) as u64) << 8u64) | (buf.peek(7) as u64);
    buf.advance(8);
    Ok(v as i64)
}

pub fn read_key(buf: &mut ByteReader) -> (r: Result<Vec<u8>, IoError>)
    ensures
        read_bytes_as(r, old(buf)@, final(buf)@, take_key(old(buf)@)),
{
    ensure_remaining(buf, 2)?;
    let n = buf.peek_u16(0) as usize;
    if buf.remaining() - 2 < n {
        return Err(IoError::Eof);
    }
    buf.advance(2);
    Ok(buf.take_vec(n))
}

pub fn read_value(buf: &mut ByteReader) -> (r: Result<Vec<u8>, IoError>)
    ensures
        read_bytes_as(r, old(buf)@, final(buf)@, take_value(old(buf)@)),
{
    ensure_remaining(buf, 4)?;
    let n = buf.peek_u32(0) as usize;
    if buf.remaining() - 4 < n {
        return Err(IoError::Eof);
    }
    buf.advance(4);
    Ok(buf.take_vec(n))
}

/// Bytes behind a `u32` length.
pub fn read_bytes(buf: &mut ByteReader) -> (r: Result<Vec<u8>, IoError>)
    ensures
        read_bytes_as(r, old(buf)@, final(buf)@, take_value(old(buf)@)),
{
    read_value(buf)
}

pub fn read_str(buf: &mut ByteReader) -> (r: Result<String, IoError>)
    ensures
        match take_str(old(buf)@) {
            Some((s, rest)) => r is Ok && r->Ok_0@ == s && final(buf)@ == rest,
            None => r == Err::<String, IoError>(IoError::Eof) && final(buf)@ == old(buf)@,
        },
{
    let v = read_key(buf)?;
    Ok(utf8_lossy(v.as_slice()))
}

pub fn read_record(buf: &mut ByteReader) -> (r: Result<(Vec<u8>, Vec<u8>), IoError>)
    ensures
        match take_record(old(buf)@) {
            Some(((k, v), rest)) => r is Ok && r->Ok_0.0@ == k && r->Ok_0.1@ == v && final(buf)@
                == rest,
            None => r is Err && r->Err_0 == IoError::Eof && final(buf)@ == old(buf)@,
        },
{
    ensure_remaining(buf, 2)?;
    let n = buf.remaining();
    let klen = buf.peek_u16(0) as usize;
    if n - 2 < klen || n - 2 - klen < 4 {
        return Err(IoError::Eof);
    }
    let vlen = buf.peek_u32(2 + klen) as usize;
    proof {
        reveal(u32_at);
        let b = old(buf)@;
        let after_key = b.skip(2).skip(klen as int);
        assert(after_key =~= b.skip(2 + klen));
        assert(u32_at(after_key, 0) == u32_at(b, 2 + klen));
    }
    if n - 6 - klen < vlen {
        return Err(IoError::Eof);
    }
    let key = read_key(buf)?;
    let value = read_value(buf)?;
    Ok((key, value))
}

pub fn read_api_key(buf: &mut ByteReader) -> (r: Result<u8, IoError>)
    ensures
        read_as(r, old(buf)@, final(buf)@, take_u8(old(buf)@)),
{
    read_u8(buf)
}

pub fn read_topic(buf: &mut ByteReader) -> (r: Result<String, IoError>)
    ensures
        match take_str(old(buf)@) {
            Some((s, rest)) => r is Ok && r->Ok_0@ == s && final(buf)@ == rest,
            None => r == Err::<String, IoError>(IoError::Eof) && final(buf)@ == old(buf)@,
        },
{
    read_str(buf)
}

pub fn read_partition(buf: &mut ByteReader) -> (r: Result<u16, IoError>)
    ensures
        read_as(r, old(buf)@, final(buf)@, take_u16(old(buf)@)),
{
    read_u16(buf)
}

pub fn read_record_count(buf: &mut ByteReader) -> (r: Result<u16, IoError>)
    ensures
        read_as(r, old(buf)@, final(buf)@, take_u16(old(buf)@)),
{
    read_u16(buf)
}

pub fn read_offset(buf: &mut ByteReader) -> (r: Result<i64, IoError>)
    ensures
        read_as(r, old(buf)@, final(buf)@, take_i64(old(buf)@)),
{
    read_i64(buf)
}

pub fn read_max_bytes(buf: &mut ByteReader) -> (r: Result<u32, IoError>)
    ensures
        read_as(r, old(buf)@, final(buf)@, take_u32(old(buf)@)),
{
    read_u32(buf)
}


// ---------- writers ----------

/// Appends the bytes of `src` to `out`.
pub(crate) fn put_slice(out: &mut Vec<u8>, src: &[u8])
    ensures
        final(out)@ == old(out)@ + src@,
{
    let mut i: usize = 0;
    while i < src.len()
        invariant
            i <= src@.len(),
            out@ == old(out)@ + src@.take(i as int),
        decreases src@.len() - i,
    {
        out.push(src[i]);
        i = i + 1;
        assert(out@ =~= old(out)@ + src@.take(i as int));
    }
    assert(src@.take(i as int) =~= src@);
}

pub(crate) fn put_u16(out: &mut Vec<u8>, v: u16)
    ensures
        final(out)@ == old(out)@ + u16_bytes(v),
{
    out.push((v >> 8u16) as u8);
    out.push(v as u8);
    assert(out@ =~= old(out)@ + u16_bytes(v));
}

pub(crate) fn put_u32(out: &mut Vec<u8>, v: u32)
    ensures
        final(out)@ == old(out)@ + u32_bytes(v),
{
    out.push((v >> 24u32) as u8);
    out.push((v >> 16u32) as u8);
    out.push((v >> 8u32) as u8);
    out.push(v as u8);
    assert(out@ =~= old(out)@ + u32_bytes(v));
}

pub(crate) fn put_i64(out: &mut Vec<u8>, v: i64)
    ensures
        final(out)@ == old(out)@ + i64_bytes(v),
{
    let u = v as u64;
    out.push((u >> 56u64) as u8);
    out.push((u >> 48u64) as u8);
    out.push((u >> 40u64) as u8);
    out.push((u >> 32u64) as u8);
    out.push((u >> 24u64) as u8);
    out.push((u >> 16u64) as u8);
    out.push((u >> 8u64) as u8);
    out.push(u as u8);
    assert(out@ =~= old(out)@ + i64_bytes(v));
}

/// Writes `s` as a string field; fails with `StringTooLong`, writing nothing, when its
/// UTF-8 encoding is longer than a `u16` can count.
pub fn write_str(out: &mut Vec<u8>, s: &str) -> (r: Result<(), IoError>)
    ensures
        encode_utf8(s@).len() <= u16::MAX ==> r is Ok && final(out)@ == old(out)@ + str_bytes(s@),
        encode_utf8(s@).len() > u16::MAX ==> r == Err::<(), IoError>(IoError::StringTooLong)
            && final(out)@ == old(out)@,
{
    let bytes = s.as_bytes();
    if bytes.len() > 65535 {
        return Err(IoError::StringTooLong);
    }
    put_u16(out, bytes.len() as u16);
    put_slice(out, bytes);
    assert(out@ =~= old(out)@ + str_bytes(s@));
    Ok(())
}

pub fn write_api_key(buf: &mut Vec<u8>, key: u8)
    ensures
        final(buf)@ == old(buf)@.push(key),
{
    buf.push(key);
}

pub fn write_status(buf: &mut Vec<u8>, status: u8)
    ensures
        final(buf)@ == old(buf)@.push(status),
{
    buf.push(status);
}

pub fn write_topic(buf: &mut Vec<u8>, topic: &str)
    requires
        encode_utf8(topic@).len() <= u16::MAX,
    ensures
        final(buf)@ == old(buf)@ + str_bytes(topic@),
{
    let bytes = topic.as_bytes();
    put_u16(buf, bytes.len() as u16);
    put_slice(buf, bytes);
    assert(buf@ =~= old(buf)@ + str_bytes(topic@));
}

pub fn write_partition(buf: &mut Vec<u8>, partition: u16)
    ensures
        final(buf)@ == old(buf)@ + u16_bytes(partition),
{
    put_u16(buf, partition);
}

pub fn write_record_count(buf: &mut Vec<u8>, count: u16)
    ensures
        final(buf)@ == old(buf)@ + u16_bytes(count),
{
    put_u16(buf, count);
}

pub fn write_offset(buf: &mut Vec<u8>, offset: i64)
    ensures
        final(buf)@ == old(buf)@ + i64_bytes(offset),
{
    put_i64(buf, offset);
}

pub fn write_max_bytes(buf: &mut Vec<u8>, max_bytes: u32)
    ensures
        final(buf)@ == old(buf)@ + u32_bytes(max_bytes),
{
    put_u32(buf, max_bytes);
}

/// Bytes behind a `u16` length.
pub open spec fn key_bytes(k: Seq<u8>) -> Seq<u8> {
    u16_bytes(k.len() as u16) + k
}

/// Bytes behind a `u32` length.
pub open spec fn value_bytes(v: Seq<u8>) -> Seq<u8> {
    u32_bytes(v.len() as u32) + v
}

pub fn write_key(buf: &mut Vec<u8>, key: &str)
    requires
        encode_utf8(key@).len() <= u16::MAX,
    ensures
        final(buf)@ == old(buf)@ + key_bytes(encode_utf8(key@)),
{
    let bytes = key.as_bytes();
    put_u16(buf, bytes.len() as u16);
    put_slice(buf, bytes);
    assert(buf@ =~= old(buf)@ + key_bytes(encode_utf8(key@)));
}

pub fn write_value(buf: &mut Vec<u8>, value: &str)
    requires
        encode_utf8(value@).len() <= u32::MAX,
    ensures
        final(buf)@ == old(buf)@ + value_bytes(encode_utf8(value@)),
{
    let bytes = value.as_bytes();
    put_u32(buf, bytes.len() as u32);
    put_slice(buf, bytes);
    assert(buf@ =~= old(buf)@ + value_bytes(encode_utf8(value@)));
}

pub fn write_record(buf: &mut Vec<u8>, key: &str, value: &str)
    requires
        encode_utf8(key@).len() <= u16::MAX,
        encode_utf8(value@).len() <= u32::MAX,
    ensures
        final(buf)@ == old(buf)@ + key_bytes(encode_utf8(key@)) + value_bytes(encode_utf8(value@)),
{
    write_key(buf, key);
    write_value(buf, value);
}

pub fn write_record_bytes(buf: &mut Vec<u8>, key: &[u8], value: &[u8])
    requires
        key@.len() <= u16::MAX,
        value@.len() <= u32::MAX,
    ensures
        final(buf)@ == old(buf)@ + key_bytes(key@) + value_bytes(value@),
{
    put_u16(buf, key.len() as u16);
    put_slice(buf, key);
    put_u32(buf, value.len() as u32);
    put_slice(buf, value);
    assert(buf@ =~= old(buf)@ + key_bytes(key@) + value_bytes(value@));
}

pub proof fn lemma_key_round_trip(k: Seq<u8>, rest: Seq<u8>)
    requires
        k.len() <= u16::MAX,
    ensures
        take_key(key_bytes(k) + rest) == Some((k, rest)),
{
    let r1 = k + rest;
    lemma_u16_round_trip(k.len() as u16, r1);
    assert(key_bytes(k) + rest =~= u16_bytes(k.len() as u16) + r1);
    assert(r1.take(k.len() as int) =~= k);
    assert(r1.skip(k.len() as int) =~= rest);
}

pub proof fn lemma_value_round_trip(v: Seq<u8>, rest: Seq<u8>)
    requires
        v.len() <= u32::MAX,
    ensures
        take_value(value_bytes(v) + rest) == Some((v, rest)),
{
    let r1 = v + rest;
    lemma_u32_round_trip(v.len() as u32, r1);
    assert(value_bytes(v) + rest =~= u32_bytes(v.len() as u32) + r1);
    assert(r1.take(v.len() as int) =~= v);
    assert(r1.skip(v.len() as int) =~= rest);
}

/// Reading back what the writers wrote gives the same key and value.
pub proof fn lemma_record_round_trip(k: Seq<u8>, v: Seq<u8>, rest: Seq<u8>)
    requires
        k.len() <= u16::MAX,
        v.len() <= u32::MAX,
    ensures
        take_record(key_bytes(k) + value_bytes(v) + rest) == Some(((k, v), rest)),
{
    lemma_value_round_trip(v, rest);
    lemma_key_round_trip(k, value_bytes(v) + rest);
    assert(key_bytes(k) + value_bytes(v) + rest =~= key_bytes(k) + (value_bytes(v) + rest));
}

/// Reading back a written string gives the same text.
pub proof fn lemma_str_round_trip(s: Seq<char>, rest: Seq<u8>)
    requires
        encode_utf8(s).len() <= u16::MAX,
    ensures
        take_str(str_bytes(s) + rest) == Some((s, rest)),
{
    lemma_key_round_trip(encode_utf8(s), rest);
    assert(str_bytes(s) == key_bytes(encode_utf8(s)));
}

} // verus!
