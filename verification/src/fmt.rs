//! Text output of the decoders: a FASTA-like record per read, and one
//! tab-separated line per overlap record.

use crate::ovl::{OverlapRecord, Strand};
use vstd::prelude::*;

verus! {

/// Decimal digit string of `n`, most significant digit first.
pub open spec fn dec_digits(n: int) -> Seq<u8>
    decreases n,
{
    if n < 10 {
        seq![(48 + n) as u8]
    } else {
        dec_digits(n / 10).push((48 + n % 10) as u8)
    }
}

/// Render `n` in decimal.
pub fn u64_dec(n: u64) -> (r: Vec<u8>)
    ensures
        r@ == dec_digits(n as int),
    decreases n,
{
    if n < 10 {
        let mut v: Vec<u8> = Vec::new();
        v.push(48 + n as u8);
        proof {
            assert(v@ =~= dec_digits(n as int));
        }
        v
    } else {
        let mut v: Vec<u8> = u64_dec(n / 10);
        v.push(48 + (n % 10) as u8);
        v
    }
}

/// Append `src` to `dst`.
fn extend_bytes(dst: &mut Vec<u8>, src: &Vec<u8>)
    ensures
        final(dst)@ == old(dst)@ + src@,
{
    let m: usize = src.len();
    let mut i: usize = 0;
    while i < m
        invariant
            m == src@.len(),
            i <= m,
            dst@ == old(dst)@ + src@.subrange(0, i as int),
        decreases m - i,
    {
        let ghost before = dst@;
        dst.push(src[i]);
        proof {
            assert(old(dst)@ + src@.subrange(0, i as int + 1) =~= before.push(src@[i as int]));
        }
        i = i + 1;
    }
    proof {
        assert(src@.subrange(0, m as int) =~= src@);
    }
}

/// One sequence record of the text output: `>`, the read name, a newline,
/// the decoded bases, a newline.
pub open spec fn fasta_record_spec(name: Seq<u8>, bases: Seq<u8>) -> Seq<u8> {
    seq![62u8] + name + seq![10u8] + bases + seq![10u8]
}

/// Render one read as a FASTA-like record.
pub fn fasta_record(name: &Vec<u8>, bases: &Vec<u8>) -> (r: Vec<u8>)
    ensures
        r@ == fasta_record_spec(name@, bases@),
{
    let mut out: Vec<u8> = Vec::new();
    out.push(62);
    extend_bytes(&mut out, name);
    out.push(10);
    extend_bytes(&mut out, bases);
    out.push(10);
    proof {
        assert(out@ =~= fasta_record_spec(name@, bases@));
    }
    out
}

/// The strand column: `-` for reverse, `+` for forward.
pub open spec fn strand_symbol_spec(s: Strand) -> u8 {
    if s is Reverse {
        45
    } else {
        43
    }
}

/// Render the strand column.
pub fn strand_symbol(s: Strand) -> (r: u8)
    ensures
        r == strand_symbol_spec(s),
{
    match s {
        Strand::Reverse => 45,
        Strand::Forward => 43,
    }
}

/// One overlap line of the text output, tab-separated: query name, query
/// length, query span, strand, target name, target length, target span,
/// match length, alignment length.
pub open spec fn ovl_line_spec(
    query_name: Seq<u8>,
    query_len: int,
    rec: OverlapRecord,
    target_name: Seq<u8>,
    target_len: int,
) -> Seq<u8> {
    query_name + seq![9u8] + dec_digits(query_len) + seq![9u8] + dec_digits(
        rec.query_start as int,
    ) + seq![9u8] + dec_digits(rec.query_end as int) + seq![9u8] + seq![
        strand_symbol_spec(rec.strand),
    ] + seq![9u8] + target_name + seq![9u8] + dec_digits(target_len) + seq![9u8] + dec_digits(
        rec.target_start as int,
    ) + seq![9u8] + dec_digits(rec.target_end as int) + seq![9u8] + dec_digits(
        rec.match_length as int,
    ) + seq![9u8] + dec_digits(rec.alignment_length as int) + seq![10u8]
}

/// Render one overlap record as a text line, given the names and lengths of
/// the two reads it connects.
pub fn ovl_line(
    query_name: &Vec<u8>,
    query_len: u32,
    rec: &OverlapRecord,
    target_name: &Vec<u8>,
    target_len: u32,
) -> (r: Vec<u8>)
    ensures
        r@ == ovl_line_spec(query_name@, query_len as int, *rec, target_name@, target_len as int),
{
    let mut out: Vec<u8> = Vec::new();
    extend_bytes(&mut out, query_name);
    out.push(9);
    let mut field: Vec<u8> = u64_dec(query_len as u64);
    extend_bytes(&mut out, &field);
    out.push(9);
    field = u64_dec(rec.query_start as u64);
    extend_bytes(&mut out, &field);
    out.push(9);
    field = u64_dec(rec.query_end as u64);
    extend_bytes(&mut out, &field);
    out.push(9);
    out.push(strand_symbol(rec.strand));
    out.push(9);
    extend_bytes(&mut out, target_name);
    out.push(9);
    field = u64_dec(target_len as u64);
    extend_bytes(&mut out, &field);
    out.push(9);
    field = u64_dec(rec.target_start as u64);
    extend_bytes(&mut out, &field);
    out.push(9);
    field = u64_dec(rec.target_end as u64);
    extend_bytes(&mut out, &field);
    out.push(9);
    field = u64_dec(rec.match_length as u64);
    extend_bytes(&mut out, &field);
    out.push(9);
    field = u64_dec(rec.alignment_length as u64);
    extend_bytes(&mut out, &field);
    out.push(10);
    proof {
        assert(out@ =~= ovl_line_spec(
            query_name@,
            query_len as int,
            *rec,
            target_name@,
            target_len as int,
        ));
    }
    out
}

} // verus!
