//! The metadata pass over the sequence container: the fixed header, the
//! per-read masked-site lists, the per-read lengths, and the packed name
//! table, yielding a [`ReadSet`] and the byte offset of the packed payload.
//!
//! Layout, all fields little-endian u64 unless said otherwise: a 44-byte
//! header (reads count at offset 20, total name length at offset 36); for
//! each read a site count followed by that many site offsets; one length per
//! read; the packed 2-bit payload (`length / 4 + 1` bytes per read); the name
//! buffer; and a table of `reads_count + 1` offsets into that buffer.

use crate::bytes::{le_u64, le_u64_at};
use crate::DecodeError;
use vstd::prelude::*;

verus! {

/// The read metadata of one sequence container, index-aligned per read.
pub struct ReadSet {
    /// Number of reads in the container.
    pub reads_count: usize,
    /// Base count of each read.
    pub read_lengths: Vec<u32>,
    /// Offsets within each read whose base must render as the unknown symbol.
    pub masked_sites: Vec<Vec<u64>>,
    /// Name of each read, sliced out of the packed name buffer.
    pub read_names: Vec<Vec<u8>>,
    /// Byte offset where the packed 2-bit payload begins: right after the
    /// length section, before the skip that reaches the name buffer.
    pub payload_offset: usize,
}

impl ReadSet {
    /// The per-read sequences are index-aligned.
    pub open spec fn wf(self) -> bool {
        &&& self.read_lengths@.len() == self.reads_count
        &&& self.masked_sites@.len() == self.reads_count
        &&& self.read_names@.len() == self.reads_count
    }

    /// Every masked site falls inside its read. Not guaranteed by parsing:
    /// the sequence decoder demands it of its caller.
    pub open spec fn sites_in_range(self) -> bool {
        forall|i: int, k: int|
            0 <= i < self.masked_sites@.len() && 0 <= k < self.masked_sites@[i]@.len()
                ==> self.masked_sites@[i]@[k] < self.read_lengths@[i]
    }
}

/// The reads-count header field.
pub open spec fn reads_count_of(d: Seq<u8>) -> int {
    le_u64_at(d, 20)
}

/// The total-name-length header field.
pub open spec fn name_len_of(d: Seq<u8>) -> int {
    le_u64_at(d, 36)
}

/// Byte position right after the masked-site lists of the first `i` reads;
/// each list is a count followed by that many 8-byte offsets.
pub open spec fn sites_pos(d: Seq<u8>, i: int) -> int
    decreases i,
{
    if i <= 0 {
        44
    } else {
        let p = sites_pos(d, i - 1);
        p + 8 + 8 * le_u64_at(d, p)
    }
}

pub proof fn lemma_sites_pos_mono(d: Seq<u8>, i: int, j: int)
    requires
        0 <= i <= j,
    ensures
        sites_pos(d, i) <= sites_pos(d, j),
    decreases j - i,
{
    if i < j {
        lemma_sites_pos_mono(d, i, j - 1);
        assert(le_u64_at(d, sites_pos(d, j - 1)) >= 0);
    }
}

/// Start of the per-read length section.
pub open spec fn lens_start(d: Seq<u8>) -> int {
    sites_pos(d, reads_count_of(d))
}

/// End of the per-read length section; the packed payload begins here.
pub open spec fn section_end(d: Seq<u8>) -> int {
    lens_start(d) + 8 * reads_count_of(d)
}

/// Length of read `i`, the u64 length field narrowed to 32 bits.
pub open spec fn read_len_at(d: Seq<u8>, i: int) -> int {
    le_u64_at(d, lens_start(d) + 8 * i) % 0x1_0000_0000
}

/// Bytes a read of `len` bases occupies in the packed payload: four bases a
/// byte, rounded down, plus one guard byte.
pub open spec fn packed_size(len: int) -> int {
    len / 4 + 1
}

/// Total packed-payload bytes of the first `k` reads.
pub open spec fn skip_total(d: Seq<u8>, k: int) -> int
    decreases k,
{
    if k <= 0 {
        0
    } else {
        skip_total(d, k - 1) + packed_size(read_len_at(d, k - 1))
    }
}

pub proof fn lemma_skip_total_mono(d: Seq<u8>, i: int, j: int)
    requires
        0 <= i <= j,
    ensures
        skip_total(d, i) <= skip_total(d, j),
    decreases j - i,
{
    if i < j {
        lemma_skip_total_mono(d, i, j - 1);
        assert(read_len_at(d, j - 1) >= 0);
    }
}

/// Start of the packed name buffer.
pub open spec fn names_start(d: Seq<u8>) -> int {
    section_end(d) + skip_total(d, reads_count_of(d))
}

/// Start of the name index table.
pub open spec fn index_start(d: Seq<u8>) -> int {
    names_start(d) + name_len_of(d)
}

/// Entry `j` of the name index table.
pub open spec fn name_index_at(d: Seq<u8>, j: int) -> int {
    le_u64_at(d, index_start(d) + 8 * j)
}

/// The name index table is non-decreasing and stays within the name buffer.
pub open spec fn index_valid(d: Seq<u8>) -> bool {
    &&& (forall|j: int| 0 <= j <= reads_count_of(d) ==> name_index_at(d, j) <= name_len_of(d))
    &&& (forall|j: int|
        0 <= j < reads_count_of(d) ==> #[trigger] name_index_at(d, j) <= name_index_at(d, j + 1))
}

/// What the metadata pass reports for container `d`: `None` when every
/// section fits and the name index table is valid, otherwise the first
/// failure in parse order.
pub open spec fn meta_error(d: Seq<u8>) -> Option<DecodeError> {
    if !(44 <= d.len()) {
        Some(DecodeError::ContainerTruncated)
    } else if !(lens_start(d) <= d.len()) {
        Some(DecodeError::ContainerTruncated)
    } else if !(section_end(d) <= d.len()) {
        Some(DecodeError::ContainerTruncated)
    } else if !(names_start(d) <= d.len()) {
        Some(DecodeError::SeekFailure)
    } else if !(index_start(d) <= d.len()) {
        Some(DecodeError::ContainerTruncated)
    } else if !(index_start(d) + 8 * (reads_count_of(d) + 1) <= d.len()) {
        Some(DecodeError::ContainerTruncated)
    } else if !index_valid(d) {
        Some(DecodeError::NameIndexInvalid)
    } else {
        None
    }
}

/// A name index table over a buffer of `buf_len` bytes: entries within the
/// buffer and non-decreasing.
pub open spec fn name_table_ok(index: Seq<u64>, buf_len: int) -> bool {
    &&& (forall|j: int| 0 <= j < index.len() ==> index[j] <= buf_len)
    &&& (forall|j: int| 0 <= j < index.len() - 1 ==> #[trigger] index[j] <= index[j + 1])
}

/// Copy of `d[start..end]`.
fn copy_range(d: &Vec<u8>, start: usize, end: usize) -> (r: Vec<u8>)
    requires
        start <= end <= d@.len(),
    ensures
        r@ == d@.subrange(start as int, end as int),
{
    let s: &[u8] = vstd::slice::slice_subrange(d.as_slice(), start, end);
    vstd::slice::slice_to_vec(s)
}

/// Slice a packed name buffer at consecutive index-table boundaries: name `i`
/// is `buffer[index[i]..index[i + 1]]`. Fails exactly when the table is
/// decreasing somewhere or points past the buffer.
pub fn slice_names(buffer: &Vec<u8>, index: &Vec<u64>) -> (r: Result<Vec<Vec<u8>>, DecodeError>)
    ensures
        (match r {
            Ok(names) => {
                &&& name_table_ok(index@, buffer@.len() as int)
                &&& names@.len() == (if index@.len() == 0 {
                    0int
                } else {
                    index@.len() - 1
                })
                &&& forall|i: int|
                    0 <= i < names@.len() ==> names@[i]@ == buffer@.subrange(
                        index@[i] as int,
                        index@[i + 1] as int,
                    )
            },
            Err(e) => e == DecodeError::NameIndexInvalid && !name_table_ok(
                index@,
                buffer@.len() as int,
            ),
        }),
{
    let m: usize = index.len();
    let buf_len: usize = buffer.len();
    let mut j: usize = 0;
    while j < m
        invariant
            m == index@.len(),
            buf_len == buffer@.len(),
            j <= m,
            forall|jj: int| 0 <= jj < j ==> index@[jj] <= buf_len,
            forall|jj: int| 0 <= jj < j && jj < m - 1 ==> #[trigger] index@[jj] <= index@[jj + 1],
        decreases m - j,
    {
        if index[j] > buf_len as u64 {
            return Err(DecodeError::NameIndexInvalid);
        }
        if j + 1 < m && index[j] > index[j + 1] {
            return Err(DecodeError::NameIndexInvalid);
        }
        j = j + 1;
    }
    let mut names: Vec<Vec<u8>> = Vec::new();
    if m == 0 {
        return Ok(names);
    }
    let mut i: usize = 0;
    while i < m - 1
        invariant
            m == index@.len(),
            1 <= m,
            buf_len == buffer@.len(),
            i <= m - 1,
            names@.len() == i,
            name_table_ok(index@, buffer@.len() as int),
            forall|ii: int|
                0 <= ii < i ==> names@[ii]@ == buffer@.subrange(
                    index@[ii] as int,
                    index@[ii + 1] as int,
                ),
        decreases m - i,
    {
        let a: usize = index[i] as usize;
        let b: usize = index[i + 1] as usize;
        names.push(copy_range(buffer, a, b));
        i = i + 1;
    }
    Ok(names)
}

/// Parse the masked-site lists of `n` reads, starting right after the header.
/// Returns the lists and the position where the length section begins.
fn parse_site_lists(d: &Vec<u8>, n: u64) -> (r: Result<(Vec<Vec<u64>>, usize), DecodeError>)
    requires
        44 <= d@.len(),
    ensures
        (match r {
            Ok(p) => {
                &&& sites_pos(d@, n as int) <= d@.len()
                &&& p.1 == sites_pos(d@, n as int)
                &&& p.0@.len() == n
                &&& forall|i: int| 0 <= i < n ==> p.0@[i]@.len() == le_u64_at(d@, sites_pos(d@, i))
                &&& forall|i: int, k: int|
                    0 <= i < n && 0 <= k < p.0@[i]@.len() ==> p.0@[i]@[k] == le_u64_at(
                        d@,
                        sites_pos(d@, i) + 8 + 8 * k,
                    )
            },
            Err(e) => e == DecodeError::ContainerTruncated && sites_pos(d@, n as int) > d@.len(),
        }),
{
    let data_len: usize = d.len();
    let mut sites: Vec<Vec<u64>> = Vec::new();
    let mut pos: usize = 44;
    let mut i: u64 = 0;
    while i < n
        invariant
            44 <= d@.len(),
            data_len == d@.len(),
            i <= n,
            pos == sites_pos(d@, i as int),
            pos <= data_len,
            sites@.len() == i,
            forall|ii: int| 0 <= ii < i ==> sites@[ii]@.len() == le_u64_at(d@, sites_pos(d@, ii)),
            forall|ii: int, k: int|
                0 <= ii < i && 0 <= k < sites@[ii]@.len() ==> sites@[ii]@[k] == le_u64_at(
                    d@,
                    sites_pos(d@, ii) + 8 + 8 * k,
                ),
        decreases n - i,
    {
        if data_len - pos < 8 {
            proof {
                assert(le_u64_at(d@, sites_pos(d@, i as int)) >= 0);
                assert(sites_pos(d@, i as int + 1) >= pos + 8);
                lemma_sites_pos_mono(d@, i as int + 1, n as int);
            }
            return Err(DecodeError::ContainerTruncated);
        }
        let site_base: usize = pos;
        let cnt: u64 = le_u64(d, pos);
        pos = pos + 8;
        let mut poses: Vec<u64> = Vec::new();
        let mut k: u64 = 0;
        while k < cnt
            invariant
                data_len == d@.len(),
                i < n,
                k <= cnt,
                site_base == sites_pos(d@, i as int),
                cnt == le_u64_at(d@, sites_pos(d@, i as int)),
                pos == site_base + 8 + 8 * k,
                pos <= data_len,
                poses@.len() == k,
                forall|kk: int|
                    0 <= kk < k ==> poses@[kk] == le_u64_at(d@, sites_pos(d@, i as int) + 8 + 8 * kk),
            decreases cnt - k,
        {
            if data_len - pos < 8 {
                proof {
                    assert(sites_pos(d@, i as int + 1) == site_base + 8 + 8 * cnt);
                    lemma_sites_pos_mono(d@, i as int + 1, n as int);
                }
                return Err(DecodeError::ContainerTruncated);
            }
            let v: u64 = le_u64(d, pos);
            poses.push(v);
            pos = pos + 8;
            k = k + 1;
        }
        assert(pos == sites_pos(d@, i as int + 1));
        sites.push(poses);
        i = i + 1;
    }
    Ok((sites, pos))
}

/// Parse `n` 8-byte read lengths starting at `start`, each narrowed to 32
/// bits. Returns the lengths and the position right after the section.
fn parse_read_lens(d: &Vec<u8>, start: usize, n: u64) -> (r: Result<(Vec<u32>, usize), DecodeError>)
    requires
        start <= d@.len(),
    ensures
        (match r {
            Ok(p) => {
                &&& start + 8 * n <= d@.len()
                &&& p.1 == start + 8 * n
                &&& p.0@.len() == n
                &&& forall|i: int|
                    0 <= i < n ==> p.0@[i] == le_u64_at(d@, start + 8 * i) % 0x1_0000_0000
            },
            Err(e) => e == DecodeError::ContainerTruncated && start + 8 * (n as int) > d@.len(),
        }),
{
    let data_len: usize = d.len();
    let mut lens: Vec<u32> = Vec::new();
    let mut pos: usize = start;
    let mut i: u64 = 0;
    while i < n
        invariant
            data_len == d@.len(),
            i <= n,
            pos == start + 8 * i,
            pos <= data_len,
            lens@.len() == i,
            forall|ii: int| 0 <= ii < i ==> lens@[ii] == le_u64_at(d@, start + 8 * ii) % 0x1_0000_0000,
        decreases n - i,
    {
        if data_len - pos < 8 {
            return Err(DecodeError::ContainerTruncated);
        }
        let raw: u64 = le_u64(d, pos);
        lens.push((raw % 0x1_0000_0000) as u32);
        pos = pos + 8;
        i = i + 1;
    }
    Ok((lens, pos))
}

/// The metadata pass: parse the fixed header, the masked-site lists, the
/// read lengths and the packed name table of the sequence container `d`,
/// producing a fully populated [`ReadSet`]. The payload offset is the
/// position recorded right after the length section; the name buffer is
/// reached by skipping `length / 4 + 1` payload bytes per read from there.
/// Fails exactly as [`meta_error`] says: truncation of any section, a skip
/// landing past the end, or an invalid name index table.
pub fn read_seq_info(d: &Vec<u8>) -> (r: Result<ReadSet, DecodeError>)
    ensures
        (match r {
            Ok(rs) => {
                &&& meta_error(d@) is None
                &&& rs.wf()
                &&& rs.reads_count == reads_count_of(d@)
                &&& forall|i: int|
                    0 <= i < rs.reads_count ==> rs.read_lengths@[i] == read_len_at(d@, i)
                &&& forall|i: int|
                    0 <= i < rs.reads_count ==> rs.masked_sites@[i]@.len() == le_u64_at(
                        d@,
                        sites_pos(d@, i),
                    )
                &&& forall|i: int, k: int|
                    0 <= i < rs.reads_count && 0 <= k < rs.masked_sites@[i]@.len()
                        ==> rs.masked_sites@[i]@[k] == le_u64_at(d@, sites_pos(d@, i) + 8 + 8 * k)
                &&& rs.payload_offset == section_end(d@)
                &&& forall|i: int|
                    0 <= i < rs.reads_count ==> rs.read_names@[i]@ == d@.subrange(
                        names_start(d@) + name_index_at(d@, i),
                        names_start(d@) + name_index_at(d@, i + 1),
                    )
            },
            Err(e) => meta_error(d@) == Some(e),
        }),
{
    let data_len: usize = d.len();
    if data_len < 44 {
        return Err(DecodeError::ContainerTruncated);
    }
    // The name-index-size header field is parsed but needed by nothing
    // downstream; it is kept here for forward compatibility.
    let _name_index_size: u64 = le_u64(d, 12);
    let n: u64 = le_u64(d, 20);
    let tnl: u64 = le_u64(d, 36);

    let (masked, lens_pos): (Vec<Vec<u64>>, usize) = match parse_site_lists(d, n) {
        Ok(p) => p,
        Err(e) => {
            return Err(e);
        },
    };
    assert(lens_pos == lens_start(d@));

    let (lens, payload_offset): (Vec<u32>, usize) = match parse_read_lens(d, lens_pos, n) {
        Ok(p) => p,
        Err(e) => {
            return Err(e);
        },
    };
    assert(payload_offset == section_end(d@));
    assert(forall|i: int| 0 <= i < n ==> lens@[i] == read_len_at(d@, i));

    let n_us: usize = lens.len();
    let mut pos: usize = payload_offset;
    let mut i: usize = 0;
    while i < n_us
        invariant
            data_len == d@.len(),
            44 <= d@.len(),
            n == reads_count_of(d@),
            n_us == n,
            lens@.len() == n,
            forall|ii: int| 0 <= ii < n ==> lens@[ii] == read_len_at(d@, ii),
            lens_start(d@) <= d@.len(),
            section_end(d@) <= d@.len(),
            i <= n_us,
            pos == section_end(d@) + skip_total(d@, i as int),
            pos <= data_len,
        decreases n_us - i,
    {
        let b: usize = (lens[i] / 4 + 1) as usize;
        proof {
            assert(b == packed_size(read_len_at(d@, i as int)));
            assert(skip_total(d@, i as int + 1) == skip_total(d@, i as int) + packed_size(
                read_len_at(d@, i as int),
            ));
        }
        if data_len - pos < b {
            proof {
                lemma_skip_total_mono(d@, i as int + 1, n as int);
            }
            return Err(DecodeError::SeekFailure);
        }
        pos = pos + b;
        i = i + 1;
    }
    assert(pos == names_start(d@));

    if ((data_len - pos) as u64) < tnl {
        return Err(DecodeError::ContainerTruncated);
    }
    assert(tnl <= (data_len - pos) as u64);
    let tnl_us: usize = tnl as usize;
    let buffer: Vec<u8> = copy_range(d, pos, pos + tnl_us);
    let idx_base: usize = pos + tnl_us;
    assert(idx_base == index_start(d@));

    let mut entries: Vec<u64> = Vec::new();
    let mut pos2: usize = idx_base;
    let mut j: u64 = 0;
    assert(n < u64::MAX);
    while j < n + 1
        invariant
            data_len == d@.len(),
            44 <= d@.len(),
            n == reads_count_of(d@),
            n < u64::MAX,
            lens_start(d@) <= d@.len(),
            section_end(d@) <= d@.len(),
            names_start(d@) <= d@.len(),
            index_start(d@) <= d@.len(),
            j <= n + 1,
            pos2 == index_start(d@) + 8 * j,
            pos2 <= data_len,
            entries@.len() == j,
            forall|jj: int| 0 <= jj < j ==> entries@[jj] == name_index_at(d@, jj),
        decreases n + 1 - j,
    {
        if data_len - pos2 < 8 {
            return Err(DecodeError::ContainerTruncated);
        }
        let v: u64 = le_u64(d, pos2);
        entries.push(v);
        pos2 = pos2 + 8;
        j = j + 1;
    }
    assert(index_start(d@) + 8 * (reads_count_of(d@) + 1) <= d@.len());

    let names: Vec<Vec<u8>> = match slice_names(&buffer, &entries) {
        Ok(v) => v,
        Err(e) => {
            proof {
                if index_valid(d@) {
                    assert forall|jj: int| 0 <= jj < entries@.len() implies entries@[jj]
                        <= buffer@.len() by {
                        assert(entries@[jj] == name_index_at(d@, jj));
                        assert(name_index_at(d@, jj) <= name_len_of(d@));
                    }
                    assert forall|jj: int|
                        0 <= jj < entries@.len() - 1 implies #[trigger] entries@[jj] <= entries@[jj
                        + 1] by {
                        assert(entries@[jj] == name_index_at(d@, jj));
                        assert(entries@[jj + 1] == name_index_at(d@, jj + 1));
                        assert(name_index_at(d@, jj) <= name_index_at(d@, jj + 1));
                    }
                    assert(name_table_ok(entries@, buffer@.len() as int));
                    assert(false);
                }
            }
            return Err(e);
        },
    };
    proof {
        assert forall|jj: int| 0 <= jj <= reads_count_of(d@) implies #[trigger] name_index_at(
            d@,
            jj,
        ) <= name_len_of(d@) by {
            assert(entries@[jj] == name_index_at(d@, jj));
            assert(entries@[jj] <= buffer@.len());
        }
        assert forall|jj: int| 0 <= jj < reads_count_of(d@) implies #[trigger] name_index_at(
            d@,
            jj,
        ) <= name_index_at(d@, jj + 1) by {
            assert(entries@[jj] == name_index_at(d@, jj));
            assert(entries@[jj + 1] == name_index_at(d@, jj + 1));
            assert(entries@[jj] <= entries@[jj + 1]);
        }
        assert(index_valid(d@));
        assert forall|ii: int| 0 <= ii < reads_count_of(d@) implies names@[ii]@ == d@.subrange(
            names_start(d@) + name_index_at(d@, ii),
            names_start(d@) + name_index_at(d@, ii + 1),
        ) by {
            let a = name_index_at(d@, ii);
            let b2 = name_index_at(d@, ii + 1);
            assert(entries@[ii] == a);
            assert(entries@[ii + 1] == b2);
            assert(names@[ii]@ == buffer@.subrange(a, b2));
            assert(0 <= a <= b2 <= buffer@.len());
            assert(buffer@.subrange(a, b2) =~= d@.subrange(
                names_start(d@) + a,
                names_start(d@) + b2,
            ));
        }
    }
    let rc: usize = lens.len();
    Ok(
        ReadSet {
            reads_count: rc,
            read_lengths: lens,
            masked_sites: masked,
            read_names: names,
            payload_offset,
        },
    )
}

} // verus!
