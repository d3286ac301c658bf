//! The streaming overlap decoder: an initial signed query count, then per
//! query a 6-byte block header whose trailing 4 bytes give a signed record
//! count, then that many fixed 42-byte overlap records.
//!
//! A negative initial count marks an empty container and ends the stream at
//! once; a block header whose record count is not positive yields no records
//! for that query. Each record derives its alignment statistics: the match
//! length is the shorter of the two spans, the alignment length the longer.

use crate::bytes::{le_u32, le_u32_at, le_u64, le_u64_at};
use crate::DecodeError;
use vstd::prelude::*;

verus! {

/// Orientation of an overlap: strand code `1` is reverse, every other code
/// is forward.
#[derive(Clone, Copy, Debug, PartialEq, Eq, Structural)]
pub enum Strand {
    Forward,
    Reverse,
}

/// One decoded overlap between a query read and a target read, with
/// half-open coordinate spans and derived alignment statistics.
#[derive(Clone, Copy, Debug, PartialEq, Eq, Structural)]
pub struct OverlapRecord {
    pub query_index: u32,
    pub query_start: u32,
    pub query_end: u32,
    pub target_index: u32,
    pub target_start: u32,
    pub target_end: u32,
    pub strand: Strand,
    /// The shorter of the query span and the target span.
    pub match_length: u32,
    /// The longer of the query span and the target span.
    pub alignment_length: u32,
}

/// The shorter of two spans.
pub open spec fn match_of(a: int, b: int) -> int {
    if a < b {
        a
    } else {
        b
    }
}

/// The longer of two spans.
pub open spec fn align_of(a: int, b: int) -> int {
    if a < b {
        b
    } else {
        a
    }
}

/// Law: the derived statistics do not care which span is the query's and
/// which the target's, and the match never exceeds the alignment.
pub proof fn lemma_match_align_swap(a: int, b: int)
    ensures
        match_of(a, b) == match_of(b, a),
        align_of(a, b) == align_of(b, a),
        match_of(a, b) <= align_of(a, b),
{
}

/// The combined query field of the record at `pos`: index in the high 32
/// bits, start in the low 32.
pub open spec fn rec_query_index(d: Seq<u8>, pos: int) -> int {
    le_u64_at(d, pos) / 0x1_0000_0000
}

pub open spec fn rec_query_start(d: Seq<u8>, pos: int) -> int {
    le_u64_at(d, pos) % 0x1_0000_0000
}

pub open spec fn rec_query_end(d: Seq<u8>, pos: int) -> int {
    le_u32_at(d, pos + 8)
}

pub open spec fn rec_target_index(d: Seq<u8>, pos: int) -> int {
    le_u32_at(d, pos + 12)
}

pub open spec fn rec_target_start(d: Seq<u8>, pos: int) -> int {
    le_u32_at(d, pos + 16)
}

pub open spec fn rec_target_end(d: Seq<u8>, pos: int) -> int {
    le_u32_at(d, pos + 20)
}

/// The strand-encoding field of the record at `pos`.
pub open spec fn rec_strand_code(d: Seq<u8>, pos: int) -> int {
    le_u32_at(d, pos + 30)
}

/// Both spans of the record at `pos` are ordered: end not before start.
pub open spec fn spans_ok(d: Seq<u8>, pos: int) -> bool {
    &&& rec_query_start(d, pos) <= rec_query_end(d, pos)
    &&& rec_target_start(d, pos) <= rec_target_end(d, pos)
}

/// The overlap record laid out at `pos`, with its derived statistics.
pub open spec fn record_at(d: Seq<u8>, pos: int) -> OverlapRecord {
    let qspan = rec_query_end(d, pos) - rec_query_start(d, pos);
    let tspan = rec_target_end(d, pos) - rec_target_start(d, pos);
    OverlapRecord {
        query_index: rec_query_index(d, pos) as u32,
        query_start: rec_query_start(d, pos) as u32,
        query_end: rec_query_end(d, pos) as u32,
        target_index: rec_target_index(d, pos) as u32,
        target_start: rec_target_start(d, pos) as u32,
        target_end: rec_target_end(d, pos) as u32,
        strand: if rec_strand_code(d, pos) == 1 {
            Strand::Reverse
        } else {
            Strand::Forward
        },
        match_length: match_of(qspan, tspan) as u32,
        alignment_length: align_of(qspan, tspan) as u32,
    }
}

/// Decode the fixed 42-byte overlap record at `pos`.
pub fn decode_ovl_record(d: &Vec<u8>, pos: usize) -> (r: OverlapRecord)
    requires
        pos + 42 <= d@.len(),
        spans_ok(d@, pos as int),
    ensures
        r == record_at(d@, pos as int),
{
    let data_len: usize = d.len();
    assert(pos + 42 <= data_len);
    let qns: u64 = le_u64(d, pos);
    let qn: u32 = (qns / 0x1_0000_0000) as u32;
    let qs: u32 = (qns % 0x1_0000_0000) as u32;
    let qe: u32 = le_u32(d, pos + 8);
    let tn: u32 = le_u32(d, pos + 12);
    let ts: u32 = le_u32(d, pos + 16);
    let te: u32 = le_u32(d, pos + 20);
    let strand_code: u32 = le_u32(d, pos + 30);
    let qspan: u32 = qe - qs;
    let tspan: u32 = te - ts;
    let mch: u32 = if qspan < tspan {
        qspan
    } else {
        tspan
    };
    let aln: u32 = if qspan < tspan {
        tspan
    } else {
        qspan
    };
    OverlapRecord {
        query_index: qn,
        query_start: qs,
        query_end: qe,
        target_index: tn,
        target_start: ts,
        target_end: te,
        strand: if strand_code == 1 {
            Strand::Reverse
        } else {
            Strand::Forward
        },
        match_length: mch,
        alignment_length: aln,
    }
}

/// The record count of the block header at `pos` (its trailing 4 bytes,
/// signed); a count that is not positive yields no records, so negative
/// counts clamp to zero.
pub open spec fn block_len_at(d: Seq<u8>, pos: int) -> int {
    let w = le_u32_at(d, pos + 2);
    if w >= 0x8000_0000 {
        0
    } else {
        w
    }
}

/// The signed query count at the head of the container; a negative count
/// marks an empty container, so it clamps to zero.
pub open spec fn init_remaining(d: Seq<u8>) -> int {
    let w = le_u64_at(d, 0);
    if w >= 0x8000_0000_0000_0000 {
        0
    } else {
        w
    }
}

/// Where the decoder state `(pos, remaining, block)` stands: at a record
/// (`block > 0` and the record fits), at the end of the stream (no block
/// and no queries left), or out of bytes. Block headers with no records are
/// walked through on the way.
pub enum OvlOutcome {
    Done { pos: int },
    Short,
    Record { pos: int, remaining: int, block: int },
}

pub open spec fn find_record(d: Seq<u8>, pos: int, remaining: int, block: int) -> OvlOutcome
    decreases remaining,
{
    if block > 0 {
        if pos + 42 <= d.len() {
            OvlOutcome::Record { pos, remaining, block }
        } else {
            OvlOutcome::Short
        }
    } else if remaining <= 0 {
        OvlOutcome::Done { pos }
    } else if pos + 6 > d.len() {
        OvlOutcome::Short
    } else {
        find_record(d, pos + 6, remaining - 1, block_len_at(d, pos))
    }
}

pub proof fn lemma_find_record_progress(d: Seq<u8>, pos: int, remaining: int, block: int)
    ensures
        (match find_record(d, pos, remaining, block) {
            OvlOutcome::Record { pos: p, remaining: r2, block: b2 } => {
                &&& r2 <= remaining
                &&& b2 > 0
                &&& pos <= p
                &&& (r2 == remaining ==> p == pos && b2 == block)
                &&& (r2 < remaining ==> r2 >= 0)
            },
            _ => true,
        }),
    decreases remaining,
{
    if block > 0 {
    } else if remaining <= 0 {
    } else if pos + 6 > d.len() {
    } else {
        lemma_find_record_progress(d, pos + 6, remaining - 1, block_len_at(d, pos));
    }
}

/// Streaming decoder over an overlap container: one record per step, in
/// file order, walking block headers as needed.
pub struct OvlDecoder {
    /// Byte position of the next header or record.
    pub pos: usize,
    /// Query blocks not yet entered.
    pub remaining: u64,
    /// Records left in the current block.
    pub block: u32,
}

impl OvlDecoder {
    /// A decoder for container `d`, after reading the initial query count.
    pub fn new(d: &Vec<u8>) -> (r: Result<OvlDecoder, DecodeError>)
        ensures
            (match r {
                Ok(dec) => {
                    &&& d@.len() >= 8
                    &&& dec.pos == 8
                    &&& dec.block == 0
                    &&& dec.remaining == init_remaining(d@)
                },
                Err(e) => e == DecodeError::ContainerTruncated && d@.len() < 8,
            }),
    {
        let data_len: usize = d.len();
        if data_len < 8 {
            return Err(DecodeError::ContainerTruncated);
        }
        let w: u64 = le_u64(d, 0);
        let remaining: u64 = if w >= 0x8000_0000_0000_0000 {
            0
        } else {
            w
        };
        Ok(OvlDecoder { pos: 8, remaining, block: 0 })
    }

    /// Decode the next overlap record. `Ok(None)` at the end of the stream;
    /// a truncated container or a record with a reversed span leaves the
    /// decoder unchanged.
    pub fn next(&mut self, d: &Vec<u8>) -> (r: Result<Option<OverlapRecord>, DecodeError>)
        requires
            old(self).pos <= d@.len(),
        ensures
            final(self).pos <= d@.len(),
            (match r {
                Ok(step) => (match step {
                    Some(rec) => (match find_record(
                        d@,
                        old(self).pos as int,
                        old(self).remaining as int,
                        old(self).block as int,
                    ) {
                        OvlOutcome::Record { pos: p, remaining: r2, block: b2 } => {
                            &&& spans_ok(d@, p)
                            &&& rec == record_at(d@, p)
                            &&& final(self).pos == p + 42
                            &&& final(self).remaining == r2
                            &&& final(self).block == b2 - 1
                        },
                        _ => false,
                    }),
                    None => (match find_record(
                        d@,
                        old(self).pos as int,
                        old(self).remaining as int,
                        old(self).block as int,
                    ) {
                        OvlOutcome::Done { pos: p } => {
                            &&& final(self).pos == p
                            &&& final(self).remaining == 0
                            &&& final(self).block == 0
                        },
                        _ => false,
                    }),
                }),
                Err(e) => (match find_record(
                    d@,
                    old(self).pos as int,
                    old(self).remaining as int,
                    old(self).block as int,
                ) {
                    OvlOutcome::Short => e == DecodeError::ContainerTruncated && *final(self)
                        == *old(self),
                    OvlOutcome::Record { pos: p, .. } => e == DecodeError::SpanInvalid
                        && !spans_ok(d@, p) && *final(self) == *old(self),
                    OvlOutcome::Done { .. } => false,
                }),
            }),
    {
        let data_len: usize = d.len();
        let mut pos: usize = self.pos;
        let mut remaining: u64 = self.remaining;
        let mut block: u32 = self.block;
        while block == 0
            invariant
                data_len == d@.len(),
                pos <= data_len,
                old(self).pos <= data_len,
                find_record(
                    d@,
                    old(self).pos as int,
                    old(self).remaining as int,
                    old(self).block as int,
                ) == find_record(d@, pos as int, remaining as int, block as int),
                *self == *old(self),
            decreases remaining,
        {
            if remaining == 0 {
                self.pos = pos;
                self.remaining = 0;
                self.block = 0;
                return Ok(None);
            }
            if data_len - pos < 6 {
                return Err(DecodeError::ContainerTruncated);
            }
            let w: u32 = le_u32(d, pos + 2);
            let b: u32 = if w >= 0x8000_0000 {
                0
            } else {
                w
            };
            assert(b as int == block_len_at(d@, pos as int));
            pos = pos + 6;
            remaining = remaining - 1;
            block = b;
        }
        if data_len - pos < 42 {
            return Err(DecodeError::ContainerTruncated);
        }
        let qns: u64 = le_u64(d, pos);
        let qs: u32 = (qns % 0x1_0000_0000) as u32;
        let qe: u32 = le_u32(d, pos + 8);
        let ts: u32 = le_u32(d, pos + 16);
        let te: u32 = le_u32(d, pos + 20);
        if qe < qs || te < ts {
            return Err(DecodeError::SpanInvalid);
        }
        let rec: OverlapRecord = decode_ovl_record(d, pos);
        self.pos = pos + 42;
        self.remaining = remaining;
        self.block = block - 1;
        Ok(Some(rec))
    }
}

/// The record list the decoder state `(pos, remaining, block)` still yields,
/// or the error it runs into.
pub open spec fn ovl_records(d: Seq<u8>, pos: int, remaining: int, block: int) -> Result<
    Seq<OverlapRecord>,
    DecodeError,
>
    decreases remaining, block,
    via ovl_records_dec
{
    match find_record(d, pos, remaining, block) {
        OvlOutcome::Done { .. } => Ok(Seq::empty()),
        OvlOutcome::Short => Err(DecodeError::ContainerTruncated),
        OvlOutcome::Record { pos: p, remaining: r2, block: b2 } => {
            if spans_ok(d, p) {
                match ovl_records(d, p + 42, r2, b2 - 1) {
                    Ok(rest) => Ok(seq![record_at(d, p)] + rest),
                    Err(e) => Err(e),
                }
            } else {
                Err(DecodeError::SpanInvalid)
            }
        },
    }
}

#[via_fn]
proof fn ovl_records_dec(d: Seq<u8>, pos: int, remaining: int, block: int) {
    lemma_find_record_progress(d, pos, remaining, block);
}

/// Everything an overlap container decodes to, or the error the walk runs
/// into.
pub open spec fn ovl_all(d: Seq<u8>) -> Result<Seq<OverlapRecord>, DecodeError> {
    if d.len() < 8 {
        Err(DecodeError::ContainerTruncated)
    } else {
        ovl_records(d, 8, init_remaining(d), 0)
    }
}

/// Decode every overlap record of the container, in file order. Eager
/// counterpart of [`OvlDecoder`].
pub fn iter_ovl_bin(d: &Vec<u8>) -> (r: Result<Vec<OverlapRecord>, DecodeError>)
    ensures
        (match r {
            Ok(recs) => ovl_all(d@) == Ok::<Seq<OverlapRecord>, DecodeError>(recs@),
            Err(e) => ovl_all(d@) == Err::<Seq<OverlapRecord>, DecodeError>(e),
        }),
{
    let mut dec: OvlDecoder = match OvlDecoder::new(d) {
        Ok(x) => x,
        Err(e) => {
            return Err(e);
        },
    };
    let mut recs: Vec<OverlapRecord> = Vec::new();
    loop
        invariant
            d@.len() >= 8,
            dec.pos <= d@.len(),
            (match ovl_records(d@, dec.pos as int, dec.remaining as int, dec.block as int) {
                Ok(rest) => ovl_all(d@) == Ok::<Seq<OverlapRecord>, DecodeError>(recs@ + rest),
                Err(e) => ovl_all(d@) == Err::<Seq<OverlapRecord>, DecodeError>(e),
            }),
        decreases dec.remaining, dec.block,
    {
        let ghost prev = dec;
        match dec.next(d) {
            Ok(Some(rec)) => {
                proof {
                    lemma_find_record_progress(
                        d@,
                        prev.pos as int,
                        prev.remaining as int,
                        prev.block as int,
                    );
                }
                let ghost old_recs = recs@;
                recs.push(rec);
                proof {
                    let o = find_record(d@, prev.pos as int, prev.remaining as int, prev.block as int);
                    let p = o->Record_pos;
                    if let Ok(rest) = ovl_records(
                        d@,
                        dec.pos as int,
                        dec.remaining as int,
                        dec.block as int,
                    ) {
                        assert(ovl_records(d@, prev.pos as int, prev.remaining as int, prev.block as int)
                            == Ok::<Seq<OverlapRecord>, DecodeError>(seq![record_at(d@, p)] + rest));
                        assert(old_recs + (seq![record_at(d@, p)] + rest) =~= recs@ + rest);
                    }
                }
            },
            Ok(None) => {
                proof {
                    assert(ovl_records(d@, dec.pos as int, dec.remaining as int, dec.block as int)
                        == Ok::<Seq<OverlapRecord>, DecodeError>(Seq::<OverlapRecord>::empty()));
                    assert(recs@ + Seq::<OverlapRecord>::empty() =~= recs@);
                }
                return Ok(recs);
            },
            Err(e) => {
                return Err(e);
            },
        }
    }
}

} // verus!
