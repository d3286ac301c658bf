//! The streaming sequence decoder: unpacks each read's 2-bit-per-base
//! payload into ASCII bases and re-marks the read's masked sites with the
//! unknown-base symbol `N`.
//!
//! A packed byte holds four bases in big-endian bit order: bits 7 and 6 give
//! the first base, bits 1 and 0 the last, over the alphabet
//! `A = 00, C = 01, G = 10, T = 11`. A read of `len` bases occupies
//! `len / 4 + 1` payload bytes; the trailing guard byte may decode to up to
//! three surplus bases, which are discarded.

use crate::meta::packed_size;
use crate::DecodeError;
use vstd::arithmetic::div_mod::{
    lemma_div_is_ordered, lemma_fundamental_div_mod, lemma_fundamental_div_mod_converse_div,
    lemma_fundamental_div_mod_converse_mod,
};
use vstd::prelude::*;

verus! {

/// ASCII symbol of a 2-bit base code: `A`, `C`, `G` or `T`.
pub open spec fn base_symbol(code: int) -> u8 {
    if code == 0 {
        65
    } else if code == 1 {
        67
    } else if code == 2 {
        71
    } else {
        84
    }
}

/// Divisor that brings base slot `j` of a packed byte (big-endian bit order)
/// down to its two low bits.
pub open spec fn slot_weight(j: int) -> int {
    if j == 0 {
        64
    } else if j == 1 {
        16
    } else if j == 2 {
        4
    } else {
        1
    }
}

/// The 2-bit code of base `i` of the read whose payload starts at `pos`.
pub open spec fn code_at(d: Seq<u8>, pos: int, i: int) -> int {
    (d[pos + i / 4] as int) / slot_weight(i % 4) % 4
}

/// Base `i` of the read whose payload starts at `pos`, before masking.
pub open spec fn decoded_base(d: Seq<u8>, pos: int, i: int) -> u8 {
    base_symbol(code_at(d, pos, i))
}

/// Whether offset `p` occurs among the masked sites.
pub open spec fn masked(sites: Seq<u64>, p: int) -> bool {
    exists|k: int| 0 <= k < sites.len() && sites[k] == p
}

/// The fully decoded read of `len` bases whose payload starts at `pos`:
/// unpacked bases, with every masked site shown as `N` and no other
/// position altered.
pub open spec fn decoded_read(d: Seq<u8>, pos: int, sites: Seq<u64>, len: int) -> Seq<u8> {
    Seq::new(
        len as nat,
        |i: int|
            if masked(sites, i) {
                78u8
            } else {
                decoded_base(d, pos, i)
            },
    )
}

/// Law: in a decoded read, a masked site carries the unknown symbol and
/// every other position carries exactly its packed base.
pub proof fn lemma_masking(d: Seq<u8>, pos: int, sites: Seq<u64>, len: int, p: int)
    requires
        0 <= p < len,
    ensures
        masked(sites, p) ==> decoded_read(d, pos, sites, len)[p] == 78,
        !masked(sites, p) ==> decoded_read(d, pos, sites, len)[p] == decoded_base(d, pos, p),
{
}

fn base_char(code: u8) -> (r: u8)
    requires
        code < 4,
    ensures
        r == base_symbol(code as int),
{
    if code == 0 {
        65
    } else if code == 1 {
        67
    } else if code == 2 {
        71
    } else {
        84
    }
}

/// Decode one read of `len` bases whose packed payload starts at `pos`,
/// applying the read's masked sites.
pub fn decode_read(d: &Vec<u8>, pos: usize, len: u32, sites: &Vec<u64>) -> (r: Vec<u8>)
    requires
        pos + packed_size(len as int) <= d@.len(),
        forall|k: int| 0 <= k < sites@.len() ==> sites@[k] < len,
    ensures
        r@ == decoded_read(d@, pos as int, sites@, len as int),
{
    let data_len: usize = d.len();
    let mut out: Vec<u8> = Vec::new();
    let mut i: u32 = 0;
    while i < len
        invariant
            data_len == d@.len(),
            pos + packed_size(len as int) <= d@.len(),
            i <= len,
            out@.len() == i,
            forall|ii: int| 0 <= ii < i ==> out@[ii] == decoded_base(d@, pos as int, ii),
        decreases len - i,
    {
        assert(i / 4 < len / 4 + 1);
        let byte: u8 = d[pos + (i / 4) as usize];
        let code: u8 = match i % 4 {
            0 => byte / 64 % 4,
            1 => byte / 16 % 4,
            2 => byte / 4 % 4,
            _ => byte % 4,
        };
        assert(code == code_at(d@, pos as int, i as int));
        out.push(base_char(code));
        i = i + 1;
    }
    let m: usize = sites.len();
    let mut k: usize = 0;
    while k < m
        invariant
            m == sites@.len(),
            k <= m,
            forall|kk: int| 0 <= kk < sites@.len() ==> sites@[kk] < len,
            out@.len() == len,
            forall|p: int|
                0 <= p < len ==> out@[p] == (if (exists|kk: int|
                    0 <= kk < k && sites@[kk] == p
                ) {
                    78u8
                } else {
                    decoded_base(d@, pos as int, p)
                }),
        decreases m - k,
    {
        let ghost prev = out@;
        let p: usize = sites[k] as usize;
        out[p] = 78;
        proof {
            assert forall|q: int| 0 <= q < len implies out@[q] == (if (exists|kk: int|
                0 <= kk < k + 1 && sites@[kk] == q
            ) {
                78u8
            } else {
                decoded_base(d@, pos as int, q)
            }) by {
                if q == sites@[k as int] {
                    assert(0 <= k < k + 1 && sites@[k as int] == q);
                } else {
                    assert(out@[q] == prev[q]);
                    if exists|kk: int| 0 <= kk < k + 1 && sites@[kk] == q {
                        let kk = choose|kk: int| 0 <= kk < k + 1 && sites@[kk] == q;
                        assert(kk < k);
                        assert(exists|kk2: int| 0 <= kk2 < k && sites@[kk2] == q);
                    }
                }
            }
        }
        k = k + 1;
    }
    proof {
        assert(out@ =~= decoded_read(d@, pos as int, sites@, len as int));
    }
    out
}

/// Packed-payload bytes of the first `k` reads, by their recorded lengths.
pub open spec fn packed_prefix(lens: Seq<u32>, k: int) -> int
    decreases k,
{
    if k <= 0 {
        0
    } else {
        packed_prefix(lens, k - 1) + packed_size(lens[k - 1] as int)
    }
}

pub proof fn lemma_packed_prefix_mono(lens: Seq<u32>, i: int, j: int)
    requires
        0 <= i <= j,
    ensures
        packed_prefix(lens, i) <= packed_prefix(lens, j),
    decreases j - i,
{
    if i < j {
        lemma_packed_prefix_mono(lens, i, j - 1);
    }
}

/// Streaming decoder over the packed payload: one read per step, in read
/// order, advancing a byte cursor monotonically. Each yielded buffer is a
/// fresh copy, safe to retain across steps.
pub struct SeqDecoder {
    /// Index of the next read to decode.
    pub idx: usize,
    /// Byte position of that read's packed payload.
    pub pos: usize,
}

impl SeqDecoder {
    /// A decoder positioned at the payload offset the metadata pass found.
    pub fn new(payload_offset: usize) -> (s: SeqDecoder)
        ensures
            s.idx == 0,
            s.pos == payload_offset,
    {
        SeqDecoder { idx: 0, pos: payload_offset }
    }

    /// Decode the next read. `Ok(None)` once every read is done; truncation
    /// leaves the decoder unchanged.
    pub fn next(
        &mut self,
        d: &Vec<u8>,
        read_lengths: &Vec<u32>,
        masked_sites: &Vec<Vec<u64>>,
    ) -> (r: Result<Option<Vec<u8>>, DecodeError>)
        requires
            masked_sites@.len() == read_lengths@.len(),
            old(self).idx < read_lengths@.len() ==> forall|k: int|
                0 <= k < masked_sites@[old(self).idx as int]@.len()
                    ==> masked_sites@[old(self).idx as int]@[k] < read_lengths@[old(
                    self,
                ).idx as int],
        ensures
            (match r {
                Ok(step) => (match step {
                    Some(seq) => {
                        &&& old(self).idx < read_lengths@.len()
                        &&& old(self).pos + packed_size(
                            read_lengths@[old(self).idx as int] as int,
                        ) <= d@.len()
                        &&& seq@ == decoded_read(
                            d@,
                            old(self).pos as int,
                            masked_sites@[old(self).idx as int]@,
                            read_lengths@[old(self).idx as int] as int,
                        )
                        &&& final(self).idx == old(self).idx + 1
                        &&& final(self).pos == old(self).pos + packed_size(
                            read_lengths@[old(self).idx as int] as int,
                        )
                    },
                    None => old(self).idx >= read_lengths@.len() && *final(self) == *old(self),
                }),
                Err(e) => {
                    &&& e == DecodeError::ContainerTruncated
                    &&& old(self).idx < read_lengths@.len()
                    &&& old(self).pos + packed_size(read_lengths@[old(self).idx as int] as int)
                        > d@.len()
                    &&& *final(self) == *old(self)
                },
            }),
    {
        let n: usize = read_lengths.len();
        if self.idx >= n {
            return Ok(None);
        }
        let len: u32 = read_lengths[self.idx];
        let b: usize = (len / 4 + 1) as usize;
        let data_len: usize = d.len();
        if self.pos > data_len || data_len - self.pos < b {
            return Err(DecodeError::ContainerTruncated);
        }
        let seq_out: Vec<u8> = decode_read(d, self.pos, len, &masked_sites[self.idx]);
        self.pos = self.pos + b;
        self.idx = self.idx + 1;
        Ok(Some(seq_out))
    }
}

/// Decode every read of the container in read order: read `i`'s payload
/// starts `packed_prefix(read_lens, i)` bytes past `offset`. Eager
/// counterpart of [`SeqDecoder`]; fails exactly when the payload of some
/// read runs past the end of the container.
pub fn iter_seq_bin(
    d: &Vec<u8>,
    read_lens: &Vec<u32>,
    n_sites: &Vec<Vec<u64>>,
    offset: usize,
) -> (r: Result<Vec<Vec<u8>>, DecodeError>)
    requires
        n_sites@.len() == read_lens@.len(),
        forall|i: int, k: int|
            0 <= i < n_sites@.len() && 0 <= k < n_sites@[i]@.len() ==> n_sites@[i]@[k]
                < read_lens@[i],
    ensures
        (match r {
            Ok(seqs) => {
                &&& (read_lens@.len() == 0 || offset + packed_prefix(
                    read_lens@,
                    read_lens@.len() as int,
                ) <= d@.len())
                &&& seqs@.len() == read_lens@.len()
                &&& forall|i: int|
                    0 <= i < seqs@.len() ==> seqs@[i]@ == decoded_read(
                        d@,
                        offset + packed_prefix(read_lens@, i),
                        n_sites@[i]@,
                        read_lens@[i] as int,
                    )
            },
            Err(e) => e == DecodeError::ContainerTruncated && offset + packed_prefix(
                read_lens@,
                read_lens@.len() as int,
            ) > d@.len(),
        }),
{
    let n: usize = read_lens.len();
    let mut dec: SeqDecoder = SeqDecoder::new(offset);
    let mut seqs: Vec<Vec<u8>> = Vec::new();
    let mut i: usize = 0;
    while i < n
        invariant
            n == read_lens@.len(),
            n_sites@.len() == n,
            forall|ii: int, k: int|
                0 <= ii < n_sites@.len() && 0 <= k < n_sites@[ii]@.len() ==> n_sites@[ii]@[k]
                    < read_lens@[ii],
            i <= n,
            dec.idx == i,
            dec.pos == offset + packed_prefix(read_lens@, i as int),
            seqs@.len() == i,
            forall|ii: int|
                0 <= ii < i ==> seqs@[ii]@ == decoded_read(
                    d@,
                    offset + packed_prefix(read_lens@, ii),
                    n_sites@[ii]@,
                    read_lens@[ii] as int,
                ),
            i > 0 ==> offset + packed_prefix(read_lens@, i as int) <= d@.len(),
        decreases n - i,
    {
        match dec.next(d, read_lens, n_sites) {
            Ok(Some(s)) => {
                seqs.push(s);
            },
            Ok(None) => {
                proof {
                    assert(false);
                }
            },
            Err(e) => {
                proof {
                    lemma_packed_prefix_mono(read_lens@, i as int + 1, n as int);
                }
                return Err(e);
            },
        }
        i = i + 1;
    }
    Ok(seqs)
}

/// Total base count of a family of decoded sequences.
pub open spec fn total_decoded_len(seqs: Seq<Seq<u8>>) -> int
    decreases seqs.len(),
{
    if seqs.len() == 0 {
        0
    } else {
        total_decoded_len(seqs.drop_last()) + seqs.last().len()
    }
}

/// Total base count the length section promises.
pub open spec fn total_read_len(lens: Seq<u32>) -> int
    decreases lens.len(),
{
    if lens.len() == 0 {
        0
    } else {
        total_read_len(lens.drop_last()) + lens.last()
    }
}

/// Law: when each decoded sequence's length equals its length-section entry,
/// the decoded base total equals the promised total.
pub proof fn lemma_total_decoded_len(seqs: Seq<Seq<u8>>, lens: Seq<u32>)
    requires
        seqs.len() == lens.len(),
        forall|i: int| 0 <= i < seqs.len() ==> #[trigger] seqs[i].len() == lens[i],
    ensures
        total_decoded_len(seqs) == total_read_len(lens),
    decreases seqs.len(),
{
    if seqs.len() > 0 {
        assert forall|i: int| 0 <= i < seqs.drop_last().len() implies #[trigger] seqs.drop_last()[
            i
        ].len() == lens.drop_last()[i] by {
            assert(seqs.drop_last()[i] == seqs[i]);
            assert(lens.drop_last()[i] == lens[i]);
        }
        lemma_total_decoded_len(seqs.drop_last(), lens.drop_last());
        assert(seqs.last().len() == lens[lens.len() - 1]);
    }
}

/// Law: a fully decoded container yields exactly as many bases as the
/// length section promises. Each decoded sequence's length equals its
/// length-section entry, and the base totals agree.
pub proof fn lemma_container_length(
    seqs: Seq<Seq<u8>>,
    d: Seq<u8>,
    lens: Seq<u32>,
    sites: Seq<Seq<u64>>,
    offset: int,
)
    requires
        seqs.len() == lens.len(),
        sites.len() == lens.len(),
        forall|i: int|
            0 <= i < seqs.len() ==> seqs[i] == decoded_read(
                d,
                offset + packed_prefix(lens, i),
                sites[i],
                lens[i] as int,
            ),
    ensures
        forall|i: int| 0 <= i < seqs.len() ==> #[trigger] seqs[i].len() == lens[i],
        total_decoded_len(seqs) == total_read_len(lens),
{
    assert forall|i: int| 0 <= i < seqs.len() implies #[trigger] seqs[i].len() == lens[i] by {
        assert(seqs[i] == decoded_read(d, offset + packed_prefix(lens, i), sites[i], lens[i] as int));
    }
    lemma_total_decoded_len(seqs, lens);
}

/// 2-bit code of an ASCII base symbol.
pub open spec fn base_code(b: u8) -> int {
    if b == 65 {
        0
    } else if b == 67 {
        1
    } else if b == 71 {
        2
    } else {
        3
    }
}

/// Whether `b` is one of the four base symbols.
pub open spec fn is_base(b: u8) -> bool {
    b == 65 || b == 67 || b == 71 || b == 84
}

/// Code of base `i`, or 0 past the end of the read (guard padding).
pub open spec fn pack_code(bases: Seq<u8>, i: int) -> int {
    if 0 <= i < bases.len() {
        base_code(bases[i])
    } else {
        0
    }
}

/// Byte `k` of a synthetically packed payload for `bases`.
pub open spec fn packed_byte(bases: Seq<u8>, k: int) -> u8 {
    (pack_code(bases, 4 * k) * 64 + pack_code(bases, 4 * k + 1) * 16 + pack_code(bases, 4 * k + 2)
        * 4 + pack_code(bases, 4 * k + 3)) as u8
}

/// A synthetically packed payload for `bases`: `len / 4 + 1` bytes, four
/// bases a byte in big-endian bit order.
pub open spec fn packed_payload(bases: Seq<u8>) -> Seq<u8> {
    Seq::new((bases.len() / 4 + 1) as nat, |k: int| packed_byte(bases, k))
}

/// The bases with every masked site overwritten by the unknown symbol.
pub open spec fn mask_overlay(bases: Seq<u8>, sites: Seq<u64>) -> Seq<u8> {
    Seq::new(
        bases.len(),
        |i: int|
            if masked(sites, i) {
                78u8
            } else {
                bases[i]
            },
    )
}

proof fn lemma_unpack_byte(bases: Seq<u8>, i: int)
    requires
        0 <= i < bases.len(),
        forall|j: int| 0 <= j < bases.len() ==> is_base(bases[j]),
    ensures
        decoded_base(packed_payload(bases), 0, i) == bases[i],
{
    let d = packed_payload(bases);
    let len = bases.len() as int;
    let k = i / 4;
    let j = i % 4;
    lemma_fundamental_div_mod(i, 4);
    assert(i == 4 * k + j);
    assert(0 <= j < 4);
    lemma_div_is_ordered(i, len - 1, 4);
    lemma_div_is_ordered(len - 1, len, 4);
    assert(0 <= k < d.len());
    let byte = d[k];
    assert(byte == packed_byte(bases, k));
    let c0 = pack_code(bases, 4 * k);
    let c1 = pack_code(bases, 4 * k + 1);
    let c2 = pack_code(bases, 4 * k + 2);
    let c3 = pack_code(bases, 4 * k + 3);
    assert(0 <= c0 < 4 && 0 <= c1 < 4 && 0 <= c2 < 4 && 0 <= c3 < 4);
    assert(byte as int == c0 * 64 + c1 * 16 + c2 * 4 + c3);
    if j == 0 {
        lemma_fundamental_div_mod_converse_div(byte as int, 64, c0, c1 * 16 + c2 * 4 + c3);
        lemma_fundamental_div_mod_converse_mod(c0, 4, 0, c0);
        assert(code_at(d, 0, i) == c0);
    } else if j == 1 {
        lemma_fundamental_div_mod_converse_div(byte as int, 16, c0 * 4 + c1, c2 * 4 + c3);
        lemma_fundamental_div_mod_converse_mod(c0 * 4 + c1, 4, c0, c1);
        assert(code_at(d, 0, i) == c1);
    } else if j == 2 {
        lemma_fundamental_div_mod_converse_div(byte as int, 4, c0 * 16 + c1 * 4 + c2, c3);
        lemma_fundamental_div_mod_converse_mod(c0 * 16 + c1 * 4 + c2, 4, c0 * 4 + c1, c2);
        assert(code_at(d, 0, i) == c2);
    } else {
        lemma_fundamental_div_mod_converse_div(byte as int, 1, byte as int, 0);
        lemma_fundamental_div_mod_converse_mod(byte as int, 4, c0 * 16 + c1 * 4 + c2, c3);
        assert(code_at(d, 0, i) == c3);
    }
    assert(code_at(d, 0, i) == base_code(bases[i]));
}

/// Law (round trip): decoding a synthetically packed payload of known bases
/// and masked sites reproduces exactly the original base string with the
/// masked positions overwritten, whether or not the length is divisible by
/// four.
pub proof fn lemma_pack_round_trip(bases: Seq<u8>, sites: Seq<u64>)
    requires
        forall|i: int| 0 <= i < bases.len() ==> is_base(bases[i]),
        forall|k: int| 0 <= k < sites.len() ==> sites[k] < bases.len(),
    ensures
        decoded_read(packed_payload(bases), 0, sites, bases.len() as int) == mask_overlay(
            bases,
            sites,
        ),
{
    let d = packed_payload(bases);
    let len = bases.len() as int;
    assert forall|i: int| 0 <= i < len implies decoded_base(d, 0, i) == bases[i] by {
        lemma_unpack_byte(bases, i);
    }
    assert(decoded_read(d, 0, sites, len) =~= mask_overlay(bases, sites));
}

} // verus!
