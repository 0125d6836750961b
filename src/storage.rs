//! The partition log: its on-disk record format, the recovery scan that rebuilds the
//! offset index, appends, and budgeted fetches.
//!
//! A record is stored as `[offset:i64][klen:u16][key][vlen:u32][value]`, records back to
//! back, with no header or terminator. The log here holds what the index needs; the
//! file itself is read and written by the caller, which hands over its bytes.
use vstd::prelude::*;
use crate::protocol::{Record, RecordView, record_fits, records_view, items_view};
use crate::wire::{
    i64_bytes, key_bytes, value_bytes, take_i64, take_record, u16_at, u32_at, i64_at,
    lemma_at_skip, lemma_bytes_at, lemma_i64_round_trip, lemma_record_round_trip, lemma_at_extend, get_u16,
    get_u32, get_i64, copy_range, put_i64, put_u16, put_u32, put_slice,
};

verus! {

#[derive(Debug, Clone)]
pub enum StorageError {
    /// The file system failed; the text is its report.
    Io(String),
    /// The log file ends inside a record, or holds a record out of offset order.
    Corrupted,
}

/// A record as the log file stores it, at offset `off`.
pub open spec fn stored_record(off: i64, r: RecordView) -> Seq<u8> {
    i64_bytes(off) + key_bytes(r.key) + value_bytes(r.value)
}

pub open spec fn stored_size(r: RecordView) -> nat {
    14 + r.key.len() + r.value.len()
}

/// The log file that holds `recs` at offsets `base`, `base + 1`, ...
pub open spec fn log_bytes(recs: Seq<RecordView>, base: int) -> Seq<u8>
    decreases recs.len(),
{
    if recs.len() == 0 {
        Seq::empty()
    } else {
        stored_record(base as i64, recs[0]) + log_bytes(recs.drop_first(), base + 1)
    }
}

/// One stored record at the start of `b`: its offset, the record, and what follows.
pub open spec fn parse_stored(b: Seq<u8>) -> Option<(i64, RecordView, Seq<u8>)> {
    match take_i64(b) {
        Some((off, r0)) => match take_record(r0) {
            Some(((k, v), rest)) => Some((off, RecordView { key: k, value: v }, rest)),
            None => None,
        },
        None => None,
    }
}

/// The records of a log file whose first record has offset `next`; `None` where the
/// file ends inside a record or an offset is out of order.
pub open spec fn parse_log(b: Seq<u8>, next: int) -> Option<Seq<RecordView>>
    decreases b.len(),
{
    if b.len() == 0 {
        Some(Seq::empty())
    } else {
        match parse_stored(b) {
            Some((off, r, rest)) => if off == next && rest.len() < b.len() {
                match parse_log(rest, next + 1) {
                    Some(rs) => Some(seq![r] + rs),
                    None => None,
                }
            } else {
                None
            },
            None => None,
        }
    }
}

pub open spec fn glue_log(a: Seq<RecordView>, o: Option<Seq<RecordView>>) -> Option<
    Seq<RecordView>,
> {
    match o {
        Some(rs) => Some(a + rs),
        None => None,
    }
}

pub open spec fn all_fit(recs: Seq<RecordView>) -> bool {
    forall|i: int| 0 <= i < recs.len() ==> record_fits(#[trigger] recs[i])
}

pub proof fn lemma_stored_len(off: i64, r: RecordView)
    ensures
        stored_record(off, r).len() == stored_size(r),
{
}

pub proof fn lemma_log_concat(a: Seq<RecordView>, b: Seq<RecordView>, base: int)
    ensures
        log_bytes(a + b, base) == log_bytes(a, base) + log_bytes(b, base + a.len()),
    decreases a.len(),
{
    if a.len() == 0 {
        assert(a + b =~= b);
        assert(log_bytes(a, base) + log_bytes(b, base) =~= log_bytes(b, base));
    } else {
        lemma_log_concat(a.drop_first(), b, base + 1);
        assert((a + b).drop_first() =~= a.drop_first() + b);
        assert((a + b)[0] == a[0]);
        assert(log_bytes(a + b, base) =~= log_bytes(a, base) + log_bytes(b, base + a.len()));
    }
}

pub proof fn lemma_log_push(a: Seq<RecordView>, x: RecordView, base: int)
    ensures
        log_bytes(a.push(x), base) == log_bytes(a, base) + stored_record((base + a.len()) as i64, x),
{
    lemma_log_concat(a, seq![x], base + 0);
    assert(a + seq![x] =~= a.push(x));
    let s = seq![x];
    assert(s.drop_first() =~= Seq::<RecordView>::empty());
    assert(log_bytes(s.drop_first(), base + a.len() + 1) == Seq::<u8>::empty());
    assert(log_bytes(s, base + a.len()) =~= stored_record((base + a.len()) as i64, x));
}

/// The first stored record of a log file is its first record, at its base offset.
pub proof fn lemma_parse_first(recs: Seq<RecordView>, base: int, rest: Seq<u8>)
    requires
        recs.len() > 0,
        record_fits(recs[0]),
        i64::MIN <= base <= i64::MAX,
    ensures
        parse_stored(log_bytes(recs, base) + rest) == Some(
            (base as i64, recs[0], log_bytes(recs.drop_first(), base + 1) + rest),
        ),
{
    let x = recs[0];
    let t = log_bytes(recs.drop_first(), base + 1) + rest;
    let after = key_bytes(x.key) + value_bytes(x.value) + t;
    assert(log_bytes(recs, base) == stored_record(base as i64, x) + log_bytes(
        recs.drop_first(),
        base + 1,
    ));
    assert(log_bytes(recs, base) + rest =~= i64_bytes(base as i64) + after);
    lemma_i64_round_trip(base as i64, after);
    assert(take_i64(log_bytes(recs, base) + rest) == Some((base as i64, after)));
    lemma_record_round_trip(x.key, x.value, t);
}

/// Reading back a log file gives the records it was written from.
pub proof fn lemma_parse_log(recs: Seq<RecordView>, base: int)
    requires
        all_fit(recs),
        0 <= base,
        base + recs.len() <= i64::MAX,
    ensures
        parse_log(log_bytes(recs, base), base) == Some(recs),
    decreases recs.len(),
{
    if recs.len() == 0 {
    } else {
        let tail = recs.drop_first();
        assert(all_fit(tail)) by {
            assert forall|i: int| 0 <= i < tail.len() implies record_fits(#[trigger] tail[i]) by {
                assert(tail[i] == recs[i + 1]);
            }
        }
        assert(record_fits(recs[0]));
        lemma_parse_first(recs, base, Seq::empty());
        assert(log_bytes(recs, base) + Seq::<u8>::empty() =~= log_bytes(recs, base));
        assert(log_bytes(tail, base + 1) + Seq::<u8>::empty() =~= log_bytes(tail, base + 1));
        lemma_stored_len(base as i64, recs[0]);
        lemma_parse_log(tail, base + 1);
        assert(seq![recs[0]] + tail =~= recs);
    }
}


/// Whether a whole stored record starts at `pos` of `c`.
pub open spec fn complete_at(c: Seq<u8>, pos: int) -> bool {
    let n = c.len() - pos;
    n >= 10 && n - 10 >= u16_at(c, pos + 8) + 4 && n - 14 - u16_at(c, pos + 8) >= u32_at(
        c,
        pos + 10 + u16_at(c, pos + 8),
    )
}

proof fn lemma_stored_at(c: Seq<u8>, pos: int)
    requires
        0 <= pos < c.len(),
    ensures
        !complete_at(c, pos) ==> parse_stored(c.skip(pos)) is None && parse_log(c.skip(pos), 0)
            is None,
        !complete_at(c, pos) ==> forall|k: int| #[trigger] parse_log(c.skip(pos), k) is None,
        complete_at(c, pos) ==> ({
            let klen = u16_at(c, pos + 8) as int;
            let vlen = u32_at(c, pos + 10 + klen) as int;
            let size = 14 + klen + vlen;
            parse_stored(c.skip(pos)) == Some(
                (
                    i64_at(c, pos),
                    RecordView {
                        key: c.subrange(pos + 10, pos + 10 + klen),
                        value: c.subrange(pos + 14 + klen, pos + size),
                    },
                    c.skip(pos + size),
                ),
            )
        }),
{
    let s = c.skip(pos);
    lemma_at_skip(c, pos);
    if c.len() - pos >= 10 {
        lemma_at_skip(c, pos + 8);
        assert(s.skip(8) =~= c.skip(pos + 8));
        assert(c.skip(pos + 8).skip(2) =~= c.skip(pos + 10));
        let klen = u16_at(c, pos + 8) as int;
        if c.len() - pos - 10 >= klen + 4 {
            lemma_at_skip(c, pos + 10 + klen);
            assert(c.skip(pos + 10).take(klen) =~= c.subrange(pos + 10, pos + 10 + klen));
            assert(c.skip(pos + 10).skip(klen) =~= c.skip(pos + 10 + klen));
            assert(c.skip(pos + 10 + klen).skip(4) =~= c.skip(pos + 14 + klen));
            let vlen = u32_at(c, pos + 10 + klen) as int;
            if c.len() - pos - 14 - klen >= vlen {
                let size = 14 + klen + vlen;
                assert(c.skip(pos + 14 + klen).take(vlen) =~= c.subrange(pos + 14 + klen, pos + size));
                assert(c.skip(pos + 14 + klen).skip(vlen) =~= c.skip(pos + size));
            }
        }
    }
}

proof fn lemma_stored_bytes(c: Seq<u8>, pos: int)
    requires
        0 <= pos < c.len(),
        complete_at(c, pos),
    ensures
        ({
            let klen = u16_at(c, pos + 8) as int;
            let vlen = u32_at(c, pos + 10 + klen) as int;
            let size = 14 + klen + vlen;
            stored_record(
                i64_at(c, pos),
                RecordView {
                    key: c.subrange(pos + 10, pos + 10 + klen),
                    value: c.subrange(pos + 14 + klen, pos + size),
                },
            ) == c.subrange(pos, pos + size)
        }),
{
    let klen = u16_at(c, pos + 8) as int;
    let vlen = u32_at(c, pos + 10 + klen) as int;
    let size = 14 + klen + vlen;
    lemma_bytes_at(c, pos);
    lemma_bytes_at(c, pos + 8);
    lemma_bytes_at(c, pos + 10 + klen);
    let key = c.subrange(pos + 10, pos + 10 + klen);
    let value = c.subrange(pos + 14 + klen, pos + size);
    assert(key.len() as u16 == u16_at(c, pos + 8));
    assert(value.len() as u32 == u32_at(c, pos + 10 + klen));
    assert(stored_record(i64_at(c, pos), RecordView { key, value }) =~= c.subrange(pos, pos + size));
}

proof fn lemma_scan_step(recs: Seq<RecordView>, rec: RecordView, c: Seq<u8>, pos: int, size: int)
    requires
        0 <= pos < pos + size <= c.len(),
        size == stored_size(rec),
        parse_stored(c.skip(pos)) == Some((recs.len() as i64, rec, c.skip(pos + size))),
        recs.len() <= i64::MAX,
        all_fit(recs),
        record_fits(rec),
    ensures
        glue_log(recs, parse_log(c.skip(pos), recs.len() as int)) == glue_log(
            recs.push(rec),
            parse_log(c.skip(pos + size), recs.len() as int + 1),
        ),
        log_bytes(recs.push(rec), 0).len() == log_bytes(recs, 0).len() + size,
        forall|i: int|
            0 <= i <= recs.len() ==> #[trigger] position(recs.push(rec), i) == if i < recs.len() {
                position(recs, i)
            } else {
                log_bytes(recs, 0).len()
            },
        all_fit(recs.push(rec)),
{
    let k = recs.len() as int;
    match parse_log(c.skip(pos + size), k + 1) {
        Some(rs) => {
            assert(recs + (seq![rec] + rs) =~= recs.push(rec) + rs);
        },
        None => {},
    }
    lemma_push_facts(recs, rec);
}

proof fn lemma_push_facts(recs: Seq<RecordView>, rec: RecordView)
    requires
        all_fit(recs),
        record_fits(rec),
    ensures
        log_bytes(recs.push(rec), 0).len() == log_bytes(recs, 0).len() + stored_size(rec),
        forall|i: int|
            0 <= i <= recs.len() ==> #[trigger] position(recs.push(rec), i) == if i < recs.len() {
                position(recs, i)
            } else {
                log_bytes(recs, 0).len()
            },
        all_fit(recs.push(rec)),
{
    let k = recs.len() as int;
    lemma_log_push(recs, rec, 0);
    lemma_stored_len(k as i64, rec);
    assert forall|i: int| 0 <= i <= recs.len() implies #[trigger] position(recs.push(rec), i)
        == if i < recs.len() {
        position(recs, i)
    } else {
        log_bytes(recs, 0).len()
    } by {
        if i < recs.len() {
            assert(recs.push(rec).take(i) =~= recs.take(i));
        } else {
            assert(recs.push(rec).take(i) =~= recs);
        }
    }
    assert forall|i: int| 0 <= i < recs.len() + 1 implies record_fits(#[trigger] recs.push(rec)[i]) by {
        if i < recs.len() {
            assert(recs.push(rec)[i] == recs[i]);
        }
    }
}

/// A longer run of records takes at least as many bytes.
proof fn lemma_log_prefix_len(recs: Seq<RecordView>, i: int, base: int)
    requires
        0 <= i <= recs.len(),
    ensures
        log_bytes(recs.take(i), base).len() <= log_bytes(recs, base).len(),
{
    lemma_log_concat(recs.take(i), recs.skip(i), base);
    assert(recs.take(i) + recs.skip(i) =~= recs);
}

/// The records that a budgeted read of `b` yields, with their stored offsets: records
/// are read one after another until the bytes end inside one or the next would take
/// more than what is left of `budget`; those stored below `offset` are charged but left
/// out.
pub open spec fn fetch_spec(b: Seq<u8>, offset: i64, budget: nat) -> Seq<(i64, RecordView)>
    decreases b.len(),
{
    match parse_stored(b) {
        Some((off, r, rest)) => if stored_size(r) <= budget && rest.len() < b.len() {
            let tail = fetch_spec(rest, offset, (budget - stored_size(r)) as nat);
            if off < offset {
                tail
            } else {
                seq![(off, r)] + tail
            }
        } else {
            Seq::empty()
        },
        None => Seq::empty(),
    }
}

/// Total stored size of fetched items.
pub open spec fn items_size(items: Seq<(i64, RecordView)>) -> nat
    decreases items.len(),
{
    if items.len() == 0 {
        0
    } else {
        stored_size(items[0].1) + items_size(items.drop_first())
    }
}

/// The offset at which a fetch from `offset` starts: the first stored one not below it.
pub open spec fn first_fetched(offset: i64) -> int {
    if offset < 0 {
        0
    } else {
        offset as int
    }
}

/// Byte position in the log file of the record at offset `i`.
pub open spec fn position(recs: Seq<RecordView>, i: int) -> nat {
    log_bytes(recs.take(i), 0).len()
}

/// The in-memory state of one partition's log: the next offset, the offset index, and
/// the length of the log file. Its view is the records the file holds, in offset order.
pub struct PartitionLog {
    next_offset: i64,
    index: Vec<u64>,
    end: u64,
    records: Ghost<Seq<RecordView>>,
}

impl View for PartitionLog {
    type V = Seq<RecordView>;

    closed spec fn view(&self) -> Seq<RecordView> {
        self.records@
    }
}

impl PartitionLog {
    /// The index has one entry per record, keyed by offsets `0, 1, ...` in order, each
    /// the byte position of its record in the file; the file is exactly those records.
    pub closed spec fn wf(&self) -> bool {
        &&& self.next_offset == self.records@.len()
        &&& self.index@.len() == self.records@.len()
        &&& forall|i: int|
            0 <= i < self.records@.len() ==> #[trigger] self.index@[i] == position(self.records@, i)
        &&& self.end == log_bytes(self.records@, 0).len()
        &&& all_fit(self.records@)
    }

    /// The offset index: entry `i` is the byte position of the record at offset `i`.
    pub closed spec fn spec_index(&self) -> Seq<u64> {
        self.index@
    }

    pub closed spec fn spec_next_offset(&self) -> int {
        self.next_offset as int
    }

    /// The bytes of the log file.
    pub open spec fn contents(&self) -> Seq<u8> {
        log_bytes(self@, 0)
    }

    pub proof fn lemma_wf(&self)
        requires
            self.wf(),
        ensures
            self.spec_next_offset() == self@.len(),
            self.spec_index().len() == self@.len(),
            forall|i: int|
                0 <= i < self@.len() ==> #[trigger] self.spec_index()[i] == position(self@, i),
            self.contents().len() <= u64::MAX,
            all_fit(self@),
    {
    }

    pub fn next_offset(&self) -> (r: i64)
        requires
            self.wf(),
        ensures
            r == self@.len(),
    {
        self.next_offset
    }

    /// Length of the log file.
    pub fn file_len(&self) -> (r: u64)
        requires
            self.wf(),
        ensures
            r == self.contents().len(),
    {
        self.end
    }

    /// What `append` needs of a batch: every record fits the format, and the offsets
    /// and the file length stay within their integer types.
    pub open spec fn can_take(&self, recs: Seq<RecordView>) -> bool {
        &&& all_fit(recs)
        &&& self@.len() + recs.len() <= i64::MAX
        &&& self.contents().len() + log_bytes(recs, self@.len() as int).len() <= u64::MAX
    }

    /// Whether `append` can take `records`.
    pub fn can_append(&self, records: &[Record]) -> (r: bool)
        requires
            self.wf(),
        ensures
            r == self.can_take(records_view(records@)),
    {
        let ghost view = records_view(records@);
        let ghost base = self@.len() as int;
        let n = records.len();
        if n as u64 > (0x7fff_ffff_ffff_ffffu64 - self.next_offset as u64) {
            return false;
        }
        let mut total: u64 = self.end;
        let mut i: usize = 0;
        while i < n
            invariant
                self.wf(),
                n == records@.len(),
                view == records_view(records@),
                base == self@.len(),
                base + n <= i64::MAX,
                i <= n,
                total == self.contents().len() + log_bytes(view.take(i as int), base).len(),
                all_fit(view.take(i as int)),
            decreases n - i,
        {
            let rec = &records[i];
            let ghost x = view[i as int];
            assert(x == rec@);
            proof {
                lemma_log_prefix_len(view, i + 1, base);
                assert(view.take(i + 1) =~= view.take(i as int).push(x));
                lemma_log_push(view.take(i as int), x, base);
                lemma_stored_len((base + i) as i64, x);
            }
            if rec.key.len() > 65535 || rec.value.len() as u64 > 0xffff_ffffu64 {
                return false;
            }
            let size = 14 + rec.key.len() as u64 + rec.value.len() as u64;
            if total > u64::MAX - size {
                return false;
            }
            total = total + size;
            proof {
                assert forall|j: int| 0 <= j < i + 1 implies record_fits(
                    #[trigger] view.take(i + 1)[j],
                ) by {
                    if j < i {
                        assert(view.take(i + 1)[j] == view.take(i as int)[j]);
                    }
                }
            }
            i = i + 1;
        }
        assert(view.take(n as int) =~= view);
        true
    }

    /// Appends `records` at the next offsets, first to last. Returns the offset of the
    /// first (the next offset before the call, also for an empty batch) and the bytes
    /// that the caller must append to the log file and force to stable storage.
    pub fn append(&mut self, records: &[Record]) -> (r: (i64, Vec<u8>))
        requires
            old(self).wf(),
            old(self).can_take(records_view(records@)),
        ensures
            final(self).wf(),
            r.0 == old(self)@.len(),
            final(self)@ == old(self)@ + records_view(records@),
            r.1@ == log_bytes(records_view(records@), old(self)@.len() as int),
            final(self).contents() == old(self).contents() + r.1@,
    {
        let ghost view = records_view(records@);
        let ghost start = self@;
        let ghost base = self@.len() as int;
        let first = self.next_offset;
        let mut out: Vec<u8> = Vec::new();
        let n = records.len();
        let mut i: usize = 0;
        proof {
            lemma_log_concat(start, Seq::empty(), 0);
            assert(view.take(0) =~= Seq::<RecordView>::empty());
            assert(start + Seq::<RecordView>::empty() =~= start);
        }
        while i < n
            invariant
                self.wf(),
                n == records@.len(),
                view == records_view(records@),
                base == start.len(),
                all_fit(view),
                base + n <= i64::MAX,
                log_bytes(start, 0).len() + log_bytes(view, base).len() <= u64::MAX,
                i <= n,
                self@ == start + view.take(i as int),
                out@ == log_bytes(view.take(i as int), base),
                log_bytes(self@, 0) == log_bytes(start, 0) + out@,
            decreases n - i,
        {
            let rec = &records[i];
            let ghost x = view[i as int];
            let ghost before = self@;
            assert(x == rec@);
            assert(record_fits(x));
            proof {
                lemma_log_prefix_len(view, i + 1, base);
                assert(view.take(i + 1) =~= view.take(i as int).push(x));
                lemma_log_push(view.take(i as int), x, base);
                lemma_stored_len((base + i) as i64, x);
                lemma_push_facts(before, x);
                lemma_log_push(before, x, 0);
            }
            let pos = self.end;
            put_i64(&mut out, self.next_offset);
            put_u16(&mut out, rec.key.len() as u16);
            put_slice(&mut out, rec.key.as_slice());
            put_u32(&mut out, rec.value.len() as u32);
            put_slice(&mut out, rec.value.as_slice());
            assert(out@ =~= log_bytes(view.take(i as int), base) + stored_record((base + i) as i64, x));
            self.index.push(pos);
            self.next_offset = self.next_offset + 1;
            self.end = self.end + 14 + rec.key.len() as u64 + rec.value.len() as u64;
            self.records = Ghost(before.push(x));
            proof {
                assert(start + view.take(i + 1) =~= before.push(x));
            }
            i = i + 1;
        }
        proof {
            assert(view.take(n as int) =~= view);
        }
        (first, out)
    }

    /// Where in the file a fetch from `offset` starts reading, or `None` where no stored
    /// offset is at or above it.
    pub fn fetch_start(&self, offset: i64) -> (r: Option<u64>)
        requires
            self.wf(),
        ensures
            first_fetched(offset) < self@.len() ==> r == Some(
                position(self@, first_fetched(offset)) as u64,
            ),
            first_fetched(offset) >= self@.len() ==> r is None,
    {
        let len = self.index.len();
        if offset >= self.next_offset || len == 0 {
            return None;
        }
        let k: usize = if offset < 0 {
            0
        } else {
            offset as usize
        };
        Some(self.index[k])
    }

    /// The bytes of the file from where a fetch from `offset` starts.
    pub open spec fn fetch_tail(&self, offset: i64) -> Seq<u8> {
        if first_fetched(offset) < self@.len() {
            self.contents().skip(position(self@, first_fetched(offset)) as int)
        } else {
            Seq::empty()
        }
    }

    /// Reads records from `tail`, the bytes of the log file from `fetch_start(offset)` on
    /// (none where that is `None`), or the part of them that a short read got: whole
    /// records in offset order, from the first stored offset at or above `offset`, while
    /// their stored sizes fit in `max_bytes`, up to the end of `tail`.
    pub fn fetch(&self, offset: i64, max_bytes: u32, tail: &[u8]) -> (r: Vec<(i64, Record)>)
        requires
            self.wf(),
            tail@.len() <= self.fetch_tail(offset).len(),
            tail@ == self.fetch_tail(offset).take(tail@.len() as int),
        ensures
            items_view(r@) == fetch_spec(tail@, offset, max_bytes as nat),
            forall|i: int| 0 <= i < r@.len() ==> r@[i].0 >= offset,
            forall|i: int, j: int| 0 <= i < j < r@.len() ==> r@[i].0 < r@[j].0,
            forall|i: int|
                #![trigger r@[i]]
                0 <= i < r@.len() ==> 0 <= r@[i].0 < self@.len() && r@[i].1@ == self@[r@[i].0 as int],
            items_size(items_view(r@)) <= max_bytes,
    {
        let n = tail.len();
        let mut pos: usize = 0;
        let mut remaining: u64 = max_bytes as u64;
        let mut items: Vec<(i64, Record)> = Vec::new();
        assert(tail@.skip(0) =~= tail@);
        assert(items_view(items@) + fetch_spec(tail@, offset, max_bytes as nat) =~= fetch_spec(
            tail@,
            offset,
            max_bytes as nat,
        ));
        loop
            invariant
                n == tail@.len(),
                pos <= n,
                fetch_spec(tail@, offset, max_bytes as nat) == items_view(items@) + fetch_spec(
                    tail@.skip(pos as int),
                    offset,
                    remaining as nat,
                ),
            ensures
                fetch_spec(tail@, offset, max_bytes as nat) == items_view(items@),
            decreases n - pos,
        {
            let ghost left = fetch_spec(tail@.skip(pos as int), offset, remaining as nat);
            if pos == n {
                assert(tail@.skip(pos as int) =~= Seq::<u8>::empty());
                assert(items_view(items@) + left =~= items_view(items@));
                break;
            }
            proof {
                lemma_stored_at(tail@, pos as int);
                if !complete_at(tail@, pos as int) {
                    assert(items_view(items@) + left =~= items_view(items@));
                }
            }
            if n - pos < 10 {
                break;
            }
            let off = get_i64(tail, pos);
            let klen = get_u16(tail, pos + 8) as usize;
            if n - pos - 10 < klen || n - pos - 10 - klen < 4 {
                break;
            }
            let vlen = get_u32(tail, pos + 10 + klen) as usize;
            if n - pos - 14 - klen < vlen {
                break;
            }
            let size = 14 + klen + vlen;
            if size as u64 > remaining {
                assert(items_view(items@) + left =~= items_view(items@));
                break;
            }
            let key = copy_range(tail, pos + 10, pos + 10 + klen);
            let value = copy_range(tail, pos + 14 + klen, pos + size);
            let ghost before = items_view(items@);
            let ghost rest = fetch_spec(tail@.skip(pos + size), offset, (remaining - size) as nat);
            remaining = remaining - size as u64;
            pos = pos + size;
            if off >= offset {
                let rec = Record { key, value };
                items.push((off, rec));
                proof {
                    assert(items_view(items@) =~= before.push((off, rec@)));
                    assert(before + (seq![(off, rec@)] + rest) =~= before.push((off, rec@)) + rest);
                }
            }
        }
        proof {
            self.lemma_fetch_short_tail(tail@, offset, max_bytes as nat);
            let v = items_view(items@);
            assert(v.len() == items@.len());
            assert forall|i: int| 0 <= i < items@.len() implies items@[i].0 >= offset by {
                assert(v[i] == (items@[i].0, items@[i].1@));
            }
            assert forall|i: int, j: int| 0 <= i < j < items@.len() implies items@[i].0
                < items@[j].0 by {
                assert(v[i] == (items@[i].0, items@[i].1@));
                assert(v[j] == (items@[j].0, items@[j].1@));
            }
            assert forall|i: int| #![trigger items@[i]] 0 <= i < items@.len() implies 0 <= items@[i].0
                < self@.len() && items@[i].1@ == self@[items@[i].0 as int] by {
                assert(v[i] == (items@[i].0, items@[i].1@));
            }
        }
        items
    }

    /// What a fetch returns lies in the log, above `offset`, in increasing offset order,
    /// and within the budget.
    pub proof fn lemma_fetch_tail(&self, offset: i64, budget: nat)
        requires
            self.wf(),
        ensures
            ({
                let items = fetch_spec(self.fetch_tail(offset), offset, budget);
                &&& forall|i: int| 0 <= i < items.len() ==> items[i].0 >= offset
                &&& forall|i: int, j: int| 0 <= i < j < items.len() ==> items[i].0 < items[j].0
                &&& forall|i: int|
                    #![trigger items[i]]
                    0 <= i < items.len() ==> 0 <= items[i].0 < self@.len() && items[i].1
                        == self@[items[i].0 as int]
                &&& items_size(items) <= budget
            }),
    {
        lemma_fetch_budget(self.fetch_tail(offset), offset, budget);
        if first_fetched(offset) < self@.len() {
            let k = first_fetched(offset);
            let recs = self@;
            lemma_log_concat(recs.take(k), recs.skip(k), 0);
            assert(recs.take(k) + recs.skip(k) =~= recs);
            assert(self.contents().skip(position(recs, k) as int) =~= log_bytes(recs.skip(k), k));
            assert(all_fit(recs.skip(k))) by {
                assert forall|i: int| 0 <= i < recs.skip(k).len() implies record_fits(
                    #[trigger] recs.skip(k)[i],
                ) by {
                    assert(recs.skip(k)[i] == recs[i + k]);
                }
            }
            lemma_fetch_log(recs.skip(k), k, offset, budget);
            let items = fetch_spec(self.fetch_tail(offset), offset, budget);
            assert forall|i: int| #![trigger items[i]] 0 <= i < items.len() implies 0 <= items[i].0
                < self@.len() && items[i].1 == self@[items[i].0 as int] by {
                assert(recs.skip(k)[items[i].0 - k] == recs[items[i].0 as int]);
            }
        } else {
            assert(fetch_spec(Seq::empty(), offset, budget) =~= Seq::empty());
        }
    }

    /// A fetch over the first bytes of the fetch tail keeps the properties of one over
    /// the whole tail.
    pub proof fn lemma_fetch_short_tail(&self, tail: Seq<u8>, offset: i64, budget: nat)
        requires
            self.wf(),
            tail.len() <= self.fetch_tail(offset).len(),
            tail == self.fetch_tail(offset).take(tail.len() as int),
        ensures
            ({
                let items = fetch_spec(tail, offset, budget);
                &&& forall|i: int| 0 <= i < items.len() ==> items[i].0 >= offset
                &&& forall|i: int, j: int| 0 <= i < j < items.len() ==> items[i].0 < items[j].0
                &&& forall|i: int|
                    #![trigger items[i]]
                    0 <= i < items.len() ==> 0 <= items[i].0 < self@.len() && items[i].1
                        == self@[items[i].0 as int]
                &&& items_size(items) <= budget
            }),
    {
        let whole = self.fetch_tail(offset);
        let e = whole.skip(tail.len() as int);
        assert(tail + e =~= whole);
        self.lemma_fetch_tail(offset, budget);
        lemma_fetch_prefix(tail, e, offset, budget);
        lemma_fetch_budget(tail, offset, budget);
        let full = fetch_spec(whole, offset, budget);
        let part = fetch_spec(tail, offset, budget);
        assert forall|i: int| 0 <= i < part.len() implies part[i] == full[i] by {}
    }

    /// Rebuilds the log from the bytes of its file: scans record after record, noting
    /// where each starts. Fails with `Corrupted` where the file ends inside a record or a
    /// stored offset is not the next one; an empty file is an empty log.
    pub fn open(contents: &[u8]) -> (r: Result<PartitionLog, StorageError>)
        ensures
            match parse_log(contents@, 0) {
                Some(recs) => r is Ok && r->Ok_0.wf() && r->Ok_0@ == recs && r->Ok_0.contents()
                    == contents@,
                None => r is Err && r->Err_0 is Corrupted,
            },
    {
        let n = contents.len();
        let mut pos: usize = 0;
        let mut next: i64 = 0;
        let mut index: Vec<u64> = Vec::new();
        let ghost mut recs: Seq<RecordView> = Seq::empty();
        assert(contents@.skip(0) =~= contents@);
        assert(contents@.take(0) =~= Seq::<u8>::empty());
        assert(recs + Seq::<RecordView>::empty() =~= recs);
        while pos < n
            invariant
                n == contents@.len(),
                pos <= n,
                pos == log_bytes(recs, 0).len(),
                contents@.take(pos as int) == log_bytes(recs, 0),
                parse_log(contents@, 0) == glue_log(
                    recs,
                    parse_log(contents@.skip(pos as int), recs.len() as int),
                ),
                next == recs.len(),
                14 * recs.len() <= pos,
                index@.len() == recs.len(),
                forall|i: int| 0 <= i < recs.len() ==> #[trigger] index@[i] == position(recs, i),
                all_fit(recs),
            decreases n - pos,
        {
            proof {
                lemma_stored_at(contents@, pos as int);
            }
            if n - pos < 10 {
                return Err(StorageError::Corrupted);
            }
            let off = get_i64(contents, pos);
            let klen = get_u16(contents, pos + 8) as usize;
            if n - pos - 10 < klen || n - pos - 10 - klen < 4 {
                return Err(StorageError::Corrupted);
            }
            let vlen = get_u32(contents, pos + 10 + klen) as usize;
            if n - pos - 14 - klen < vlen {
                return Err(StorageError::Corrupted);
            }
            let size = 14 + klen + vlen;
            let ghost rec = RecordView {
                key: contents@.subrange(pos + 10, pos + 10 + klen),
                value: contents@.subrange(pos + 14 + klen, pos + size),
            };
            if off != next {
                return Err(StorageError::Corrupted);
            }
            proof {
                lemma_scan_step(recs, rec, contents@, pos as int, size as int);
                lemma_stored_bytes(contents@, pos as int);
                lemma_log_push(recs, rec, 0);
                assert(contents@.take(pos + size) =~= contents@.take(pos as int) + contents@.subrange(
                    pos as int,
                    pos + size,
                ));
            }
            index.push(pos as u64);
            next = next + 1;
            pos = pos + size;
            proof {
                recs = recs.push(rec);
            }
        }
        proof {
            assert(contents@.take(pos as int) =~= contents@);
            assert(contents@.skip(pos as int) =~= Seq::<u8>::empty());
            assert(recs + Seq::<RecordView>::empty() =~= recs);
        }
        Ok(PartitionLog { next_offset: next, index, end: pos as u64, records: Ghost(recs) })
    }
}


/// More bytes after the fetched ones can only add items at the end.
pub proof fn lemma_fetch_prefix(p: Seq<u8>, e: Seq<u8>, offset: i64, budget: nat)
    ensures
        fetch_spec(p, offset, budget).len() <= fetch_spec(p + e, offset, budget).len(),
        fetch_spec(p, offset, budget) == fetch_spec(p + e, offset, budget).take(
            fetch_spec(p, offset, budget).len() as int,
        ),
    decreases p.len(),
{
    let a = fetch_spec(p, offset, budget);
    let b = fetch_spec(p + e, offset, budget);
    match parse_stored(p) {
        Some((off, r, rest)) => {
            lemma_parse_stored_extend(p, e);
            if stored_size(r) <= budget {
                let left = (budget - stored_size(r)) as nat;
                lemma_fetch_prefix(rest, e, offset, left);
                let ta = fetch_spec(rest, offset, left);
                let tb = fetch_spec(rest + e, offset, left);
                if off >= offset {
                    assert(a == seq![(off, r)] + ta);
                    assert(b == seq![(off, r)] + tb);
                    assert(a =~= b.take(a.len() as int));
                } else {
                    assert(a == ta && b == tb);
                }
            } else {
                assert(a =~= b.take(0));
            }
        },
        None => {
            assert(a =~= b.take(0));
        },
    }
}

/// A fetch never returns more stored bytes than its budget.
pub proof fn lemma_fetch_budget(b: Seq<u8>, offset: i64, budget: nat)
    ensures
        items_size(fetch_spec(b, offset, budget)) <= budget,
    decreases b.len(),
{
    match parse_stored(b) {
        Some((off, r, rest)) => {
            if stored_size(r) <= budget && rest.len() < b.len() {
                let left = (budget - stored_size(r)) as nat;
                lemma_fetch_budget(rest, offset, left);
                let tail = fetch_spec(rest, offset, left);
                if off >= offset {
                    assert((seq![(off, r)] + tail).drop_first() =~= tail);
                }
            }
        },
        None => {},
    }
}

/// Fetching from a log file whose first record has offset `base` returns records of
/// the log at offsets from `base` on, strictly increasing, none below `offset`.
pub proof fn lemma_fetch_log(recs: Seq<RecordView>, base: int, offset: i64, budget: nat)
    requires
        all_fit(recs),
        0 <= base,
        base + recs.len() <= i64::MAX,
    ensures
        ({
            let items = fetch_spec(log_bytes(recs, base), offset, budget);
            &&& forall|i: int| 0 <= i < items.len() ==> items[i].0 >= offset
            &&& forall|i: int| 0 <= i < items.len() ==> items[i].0 >= base
            &&& forall|i: int, j: int| 0 <= i < j < items.len() ==> items[i].0 < items[j].0
            &&& forall|i: int|
                #![trigger items[i]]
                0 <= i < items.len() ==> items[i].0 < base + recs.len() && items[i].1 == recs[items[i].0
                    - base]
        }),
    decreases recs.len(),
{
    let items = fetch_spec(log_bytes(recs, base), offset, budget);
    if recs.len() == 0 {
        assert(log_bytes(recs, base) =~= Seq::<u8>::empty());
        assert(items =~= Seq::empty());
    } else {
        let tail = recs.drop_first();
        assert(all_fit(tail)) by {
            assert forall|i: int| 0 <= i < tail.len() implies record_fits(#[trigger] tail[i]) by {
                assert(tail[i] == recs[i + 1]);
            }
        }
        assert(record_fits(recs[0]));
        lemma_parse_first(recs, base, Seq::empty());
        assert(log_bytes(recs, base) + Seq::<u8>::empty() =~= log_bytes(recs, base));
        assert(log_bytes(tail, base + 1) + Seq::<u8>::empty() =~= log_bytes(tail, base + 1));
        lemma_stored_len(base as i64, recs[0]);
        let size = stored_size(recs[0]);
        if size <= budget {
            let left = (budget - size) as nat;
            lemma_fetch_log(tail, base + 1, offset, left);
            let rest = fetch_spec(log_bytes(tail, base + 1), offset, left);
            if base < offset {
                assert(items == rest);
            } else {
                assert(items == seq![(base as i64, recs[0])] + rest);
                assert forall|i: int| #![trigger items[i]] 0 <= i < items.len() implies items[i].0
                    < base + recs.len() && items[i].1 == recs[items[i].0 - base] by {
                    if i > 0 {
                        assert(items[i] == rest[i - 1]);
                        assert(tail[items[i].0 - base - 1] == recs[items[i].0 - base]);
                    }
                }
                assert forall|i: int, j: int| 0 <= i < j < items.len() implies items[i].0
                    < items[j].0 by {
                    assert(items[j] == rest[j - 1]);
                    if i > 0 {
                        assert(items[i] == rest[i - 1]);
                    }
                }
                assert forall|i: int| 0 <= i < items.len() implies items[i].0 >= offset && items[i].0
                    >= base by {
                    if i > 0 {
                        assert(items[i] == rest[i - 1]);
                    }
                }
            }
            if base < offset {
                assert forall|i: int| #![trigger items[i]] 0 <= i < items.len() implies items[i].0
                    < base + recs.len() && items[i].1 == recs[items[i].0 - base] by {
                    assert(tail[items[i].0 - base - 1] == recs[items[i].0 - base]);
                }
            }
        } else {
            assert(items =~= Seq::empty());
        }
    }
}


proof fn lemma_parse_stored_extend(b: Seq<u8>, e: Seq<u8>)
    requires
        parse_stored(b) is Some,
    ensures
        ({
            let (o, r, rest) = parse_stored(b)->Some_0;
            &&& parse_stored(b + e) == Some((o, r, rest + e))
            &&& rest.len() + 14 <= b.len()
        }),
{
    let be = b + e;
    lemma_at_extend(b, e, 0);
    assert(be.skip(8) =~= b.skip(8) + e);
    let b8 = b.skip(8);
    lemma_at_extend(b8, e, 0);
    assert((b8 + e).skip(2) =~= b8.skip(2) + e);
    let b10 = b8.skip(2);
    let klen = u16_at(b8, 0) as int;
    assert((b10 + e).take(klen) =~= b10.take(klen));
    assert((b10 + e).skip(klen) =~= b10.skip(klen) + e);
    let bk = b10.skip(klen);
    lemma_at_extend(bk, e, 0);
    assert((bk + e).skip(4) =~= bk.skip(4) + e);
    let b14 = bk.skip(4);
    let vlen = u32_at(bk, 0) as int;
    assert((b14 + e).take(vlen) =~= b14.take(vlen));
    assert((b14 + e).skip(vlen) =~= b14.skip(vlen) + e);
}

/// A parsed log followed by fewer bytes than any record takes no longer parses.
proof fn lemma_parse_log_short_tail(b: Seq<u8>, k: int, e: Seq<u8>)
    requires
        parse_log(b, k) is Some,
        0 < e.len() < 14,
    ensures
        parse_log(b + e, k) is None,
    decreases b.len(),
{
    if b.len() == 0 {
        assert(b + e =~= e);
        if parse_stored(e) is Some {
            lemma_parse_stored_extend(e, Seq::empty());
        }
    } else {
        let (o, r, rest) = parse_stored(b)->Some_0;
        lemma_parse_stored_extend(b, e);
        lemma_parse_log_short_tail(rest, k + 1, e);
    }
}

/// Reopening a log file gives back the same records, so the same next offset.
pub proof fn lemma_reopen(log: &PartitionLog)
    requires
        log.wf(),
    ensures
        parse_log(log.contents(), 0) == Some(log@),
{
    log.lemma_wf();
    lemma_parse_log(log@, 0);
}

/// A log file cut short by its last byte no longer opens.
pub proof fn lemma_truncated_tail(log: &PartitionLog)
    requires
        log.wf(),
        log@.len() > 0,
    ensures
        parse_log(log.contents().drop_last(), 0) is None,
{
    lemma_reopen(log);
    lemma_log_nonempty(log@, 0);
    lemma_cut_short(log.contents());
}

proof fn lemma_cut_short(c: Seq<u8>)
    requires
        parse_log(c, 0) is Some,
        c.len() >= 1,
    ensures
        parse_log(c.drop_last(), 0) is None,
{
    let d = c.drop_last();
    let last = seq![c.last()];
    assert(d + last =~= c);
    if parse_log(d, 0) is Some {
        lemma_parse_log_short_tail(d, 0, last);
    }
}

proof fn lemma_log_nonempty(recs: Seq<RecordView>, base: int)
    requires
        recs.len() > 0,
    ensures
        log_bytes(recs, base).len() >= 14,
{
    lemma_stored_len(base as i64, recs[0]);
}

/// The index has one entry per offset `0 .. next_offset`, and the entry for offset `i`
/// is where the file holds the record stored with offset `i`.
pub proof fn lemma_index_consistent(log: &PartitionLog)
    requires
        log.wf(),
    ensures
        log.spec_index().len() == log.spec_next_offset() == log@.len(),
        forall|i: int|
            0 <= i < log@.len() ==> {
                &&& #[trigger] log.spec_index()[i] <= log.contents().len()
                &&& parse_stored(log.contents().skip(log.spec_index()[i] as int)) == Some(
                    (i as i64, log@[i], log_bytes(log@.skip(i + 1), i + 1)),
                )
            },
{
    log.lemma_wf();
    let recs = log@;
    assert forall|i: int| 0 <= i < recs.len() implies {
        &&& #[trigger] log.spec_index()[i] <= log.contents().len()
        &&& parse_stored(log.contents().skip(log.spec_index()[i] as int)) == Some(
            (i as i64, recs[i], log_bytes(recs.skip(i + 1), i + 1)),
        )
    } by {
        lemma_log_concat(recs.take(i), recs.skip(i), 0);
        assert(recs.take(i) + recs.skip(i) =~= recs);
        let c = log.contents();
        assert(c.skip(position(recs, i) as int) =~= log_bytes(recs.skip(i), i));
        assert(record_fits(recs.skip(i)[0]));
        lemma_parse_first(recs.skip(i), i, Seq::empty());
        assert(log_bytes(recs.skip(i), i) + Seq::<u8>::empty() =~= log_bytes(recs.skip(i), i));
        assert(recs.skip(i).drop_first() =~= recs.skip(i + 1));
        assert(log_bytes(recs.skip(i + 1), i + 1) + Seq::<u8>::empty() =~= log_bytes(
            recs.skip(i + 1),
            i + 1,
        ));
    }
}

/// Number of records in a sequence of batches.
pub open spec fn batches_total(bs: Seq<Seq<RecordView>>) -> nat
    decreases bs.len(),
{
    if bs.len() == 0 {
        0
    } else {
        batches_total(bs.drop_last()) + bs.last().len()
    }
}

proof fn lemma_total_step(bs: Seq<Seq<RecordView>>, i: int)
    requires
        0 <= i < bs.len(),
    ensures
        batches_total(bs.take(i + 1)) == batches_total(bs.take(i)) + bs[i].len(),
{
    assert(bs.take(i + 1).drop_last() =~= bs.take(i));
}

proof fn lemma_total_mono(bs: Seq<Seq<RecordView>>, i: int, j: int)
    requires
        0 <= i <= j <= bs.len(),
    ensures
        batches_total(bs.take(i)) <= batches_total(bs.take(j)),
    decreases j - i,
{
    if i < j {
        lemma_total_step(bs, j - 1);
        lemma_total_mono(bs, i, j - 1);
    }
}

proof fn lemma_cover(bs: Seq<Seq<RecordView>>, k: int, o: int)
    requires
        0 <= k <= bs.len(),
        0 <= o < batches_total(bs.take(k)),
    ensures
        exists|i: int|
            0 <= i < k && #[trigger] batches_total(bs.take(i)) <= o < batches_total(bs.take(i))
                + bs[i].len(),
    decreases k,
{
    if k == 0 {
        assert(bs.take(0) =~= Seq::<Seq<RecordView>>::empty());
    } else {
        lemma_total_step(bs, k - 1);
        if o < batches_total(bs.take(k - 1)) {
            lemma_cover(bs, k - 1, o);
        }
    }
}

/// Appending batches in turn to an empty log, each `append` returning the log's length
/// before it and adding its batch: batch `i` gets the offsets from the total of the
/// batches before it, the batches' offset ranges do not overlap, and together they are
/// exactly `0 .. N` for the `N` records appended.
pub proof fn lemma_appends_dense(
    logs: Seq<PartitionLog>,
    bases: Seq<i64>,
    bs: Seq<Seq<RecordView>>,
)
    requires
        logs.len() == bs.len() + 1,
        bases.len() == bs.len(),
        logs[0]@.len() == 0,
        forall|i: int|
            0 <= i < bs.len() ==> bases[i] == logs[i]@.len() && #[trigger] logs[i + 1]@ == logs[i]@
                + bs[i],
    ensures
        logs.last()@.len() == batches_total(bs),
        forall|i: int| 0 <= i < bs.len() ==> #[trigger] bases[i] == batches_total(bs.take(i)),
        forall|i: int, j: int|
            #![trigger bases[i], bases[j]]
            0 <= i < j < bs.len() ==> bases[i] + bs[i].len() <= bases[j],
        Set::new(
            |o: int|
            exists|i: int| 0 <= i < bs.len() && #[trigger] bases[i] <= o < bases[i] + bs[i].len(),
        ) == Set::new(|o: int| 0 <= o < batches_total(bs)),
{
    assert forall|k: int| 0 <= k <= bs.len() implies #[trigger] logs[k]@.len() == batches_total(
        bs.take(k),
    ) by {
        lemma_log_lengths(logs, bs, k);
    }
    assert(bs.take(bs.len() as int) =~= bs);
    assert forall|i: int| 0 <= i < bs.len() implies #[trigger] bases[i] == batches_total(
        bs.take(i),
    ) by {
        lemma_log_lengths(logs, bs, i);
        assert(logs[i + 1]@ == logs[i]@ + bs[i]);
    }
    assert forall|i: int, j: int|
        #![trigger bases[i], bases[j]]
        0 <= i < j < bs.len() implies bases[i] + bs[i].len() <= bases[j] by {
        lemma_total_step(bs, i);
        lemma_total_mono(bs, i + 1, j);
    }
    let a = Set::new(
        |o: int|
            exists|i: int| 0 <= i < bs.len() && #[trigger] bases[i] <= o < bases[i] + bs[i].len(),
    );
    let b = Set::new(|o: int| 0 <= o < batches_total(bs));
    assert forall|o: int| a.contains(o) <==> b.contains(o) by {
        if a.contains(o) {
            let i = choose|i: int| 0 <= i < bs.len() && #[trigger] bases[i] <= o < bases[i] + bs[i].len();
            lemma_total_step(bs, i);
            lemma_total_mono(bs, i + 1, bs.len() as int);
        }
        if b.contains(o) {
            lemma_cover(bs, bs.len() as int, o);
            let i = choose|i: int|
                0 <= i < bs.len() && #[trigger] batches_total(bs.take(i)) <= o < batches_total(
                    bs.take(i),
                ) + bs[i].len();
            assert(bases[i] == batches_total(bs.take(i)));
        }
    }
    assert(a =~= b);
}

proof fn lemma_log_lengths(logs: Seq<PartitionLog>, bs: Seq<Seq<RecordView>>, k: int)
    requires
        logs.len() == bs.len() + 1,
        logs[0]@.len() == 0,
        forall|i: int| 0 <= i < bs.len() ==> #[trigger] logs[i + 1]@ == logs[i]@ + bs[i],
        0 <= k <= bs.len(),
    ensures
        logs[k]@.len() == batches_total(bs.take(k)),
    decreases k,
{
    if k == 0 {
        assert(bs.take(0) =~= Seq::<Seq<RecordView>>::empty());
    } else {
        lemma_log_lengths(logs, bs, k - 1);
        lemma_total_step(bs, k - 1);
        assert(logs[k]@ == logs[k - 1]@ + bs[k - 1]);
    }
}

/// The offsets stored at the indexed positions are exactly `0 .. next_offset`.
pub proof fn lemma_offsets_dense(log: &PartitionLog)
    requires
        log.wf(),
    ensures
        Set::new(
            |o: int|
                exists|i: int|
                    0 <= i < log.spec_index().len() && #[trigger] parse_stored(
                        log.contents().skip(log.spec_index()[i] as int),
                    )->Some_0.0 == o,
        ) == Set::new(|o: int| 0 <= o < log.spec_next_offset()),
{
    lemma_index_consistent(log);
    let a = Set::new(
        |o: int|
            exists|i: int|
                0 <= i < log.spec_index().len() && #[trigger] parse_stored(
                    log.contents().skip(log.spec_index()[i] as int),
                )->Some_0.0 == o,
    );
    let b = Set::new(|o: int| 0 <= o < log.spec_next_offset());
    assert forall|o: int| a.contains(o) <==> b.contains(o) by {
        if b.contains(o) {
            assert(parse_stored(log.contents().skip(log.spec_index()[o] as int))->Some_0.0 == o);
        }
    }
    assert(a =~= b);
}

} // verus!
