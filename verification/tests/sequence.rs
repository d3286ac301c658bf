use hifiasm2txt::fmt::fasta_record;
use hifiasm2txt::meta::{read_seq_info, slice_names};
use hifiasm2txt::seq::{decode_read, iter_seq_bin, SeqDecoder};
use hifiasm2txt::DecodeError;

fn pack_bases(bases: &[u8]) -> Vec<u8> {
    let mut out = vec![0u8; bases.len() / 4 + 1];
    for (i, &b) in bases.iter().enumerate() {
        let code: u8 = match b {
            b'A' => 0,
            b'C' => 1,
            b'G' => 2,
            _ => 3,
        };
        out[i / 4] |= code << (6 - 2 * (i % 4));
    }
    out
}

fn build_seq_container(
    lens: &[u32],
    sites: &[Vec<u64>],
    names: &[&[u8]],
    payload: &[u8],
) -> Vec<u8> {
    let mut d = vec![0u8; 44];
    d[20..28].copy_from_slice(&(lens.len() as u64).to_le_bytes());
    let total_name: u64 = names.iter().map(|n| n.len() as u64).sum();
    d[36..44].copy_from_slice(&total_name.to_le_bytes());
    for s in sites {
        d.extend((s.len() as u64).to_le_bytes());
        for &p in s {
            d.extend(p.to_le_bytes());
        }
    }
    for &l in lens {
        d.extend((l as u64).to_le_bytes());
    }
    d.extend(payload);
    for n in names {
        d.extend(*n);
    }
    let mut off = 0u64;
    d.extend(off.to_le_bytes());
    for n in names {
        off += n.len() as u64;
        d.extend(off.to_le_bytes());
    }
    d
}

#[test]
fn metadata_two_reads() {
    let payload = [pack_bases(b"ACGT"), pack_bases(b"TTGGAC")].concat();
    let d = build_seq_container(
        &[4, 6],
        &[vec![], vec![1, 3]],
        &[b"r1", b"r2"],
        &payload,
    );
    let rs = read_seq_info(&d).unwrap();
    assert_eq!(rs.reads_count, 2);
    assert_eq!(rs.read_lengths, vec![4, 6]);
    assert_eq!(rs.masked_sites, vec![vec![], vec![1, 3]]);
    assert_eq!(rs.read_names, vec![b"r1".to_vec(), b"r2".to_vec()]);
    // the payload begins right after the two 8-byte length fields
    assert_eq!(rs.payload_offset, 44 + 8 + (8 + 2 * 8) + 2 * 8);
}

#[test]
fn metadata_empty_container() {
    let d = build_seq_container(&[], &[], &[], &[]);
    let rs = read_seq_info(&d).unwrap();
    assert_eq!(rs.reads_count, 0);
    assert!(rs.read_lengths.is_empty());
    assert!(rs.read_names.is_empty());
    assert_eq!(rs.payload_offset, 44);
}

#[test]
fn metadata_header_too_short() {
    let d = vec![0u8; 43];
    assert!(matches!(read_seq_info(&d), Err(DecodeError::ContainerTruncated)));
}

#[test]
fn metadata_truncated_site_list() {
    let payload = pack_bases(b"ACGT");
    let mut d = build_seq_container(&[4], &[vec![0, 1]], &[b"r"], &payload);
    d.truncate(44 + 8 + 8); // second site offset missing
    assert!(matches!(read_seq_info(&d), Err(DecodeError::ContainerTruncated)));
}

#[test]
fn metadata_truncated_length_section() {
    let payload = pack_bases(b"ACGT");
    let mut d = build_seq_container(&[4], &[vec![]], &[b"r"], &payload);
    d.truncate(44 + 8 + 4); // length field cut in half
    assert!(matches!(read_seq_info(&d), Err(DecodeError::ContainerTruncated)));
}

#[test]
fn metadata_seek_past_end() {
    let payload = pack_bases(b"ACGT");
    let mut d = build_seq_container(&[4], &[vec![]], &[b"r"], &payload);
    d.truncate(44 + 8 + 8 + 1); // payload shorter than the computed skip
    assert!(matches!(read_seq_info(&d), Err(DecodeError::SeekFailure)));
}

#[test]
fn metadata_truncated_name_buffer() {
    let payload = pack_bases(b"ACGT");
    let full = build_seq_container(&[4], &[vec![]], &[b"read1"], &payload);
    let mut d = full.clone();
    d.truncate(44 + 8 + 8 + payload.len() + 2); // name buffer cut short
    assert!(matches!(read_seq_info(&d), Err(DecodeError::ContainerTruncated)));
}

#[test]
fn metadata_truncated_index_table() {
    let payload = pack_bases(b"ACGT");
    let full = build_seq_container(&[4], &[vec![]], &[b"read1"], &payload);
    let mut d = full.clone();
    d.truncate(full.len() - 3); // last index entry cut short
    assert!(matches!(read_seq_info(&d), Err(DecodeError::ContainerTruncated)));
}

#[test]
fn metadata_decreasing_name_index() {
    let payload = pack_bases(b"ACGT");
    let mut d = build_seq_container(&[4], &[vec![]], &[b"read1"], &payload);
    let n = d.len();
    d[n - 16..n - 8].copy_from_slice(&9u64.to_le_bytes()); // entry past buffer, decreasing
    assert!(matches!(read_seq_info(&d), Err(DecodeError::NameIndexInvalid)));
}

#[test]
fn name_slicing() {
    let buffer = b"abcXYZ".to_vec();
    let index = vec![0u64, 3, 6];
    let names = slice_names(&buffer, &index).unwrap();
    assert_eq!(names, vec![b"abc".to_vec(), b"XYZ".to_vec()]);
}

#[test]
fn name_slicing_rejects_bad_table() {
    let buffer = b"abcXYZ".to_vec();
    assert_eq!(
        slice_names(&buffer, &vec![0u64, 4, 3]),
        Err(DecodeError::NameIndexInvalid)
    );
    assert_eq!(
        slice_names(&buffer, &vec![0u64, 7]),
        Err(DecodeError::NameIndexInvalid)
    );
}

#[test]
fn round_trip_length_not_divisible_by_four() {
    // length 6: the guard byte decodes to surplus bases that must be dropped
    let bases = b"GATTAC";
    let payload = pack_bases(bases);
    assert_eq!(payload.len(), 2);
    let decoded = decode_read(&payload, 0, 6, &vec![]);
    assert_eq!(decoded, bases.to_vec());
}

#[test]
fn round_trip_length_divisible_by_four() {
    let bases = b"ACGTTGCA";
    let payload = pack_bases(bases);
    assert_eq!(payload.len(), 3);
    let decoded = decode_read(&payload, 0, 8, &vec![]);
    assert_eq!(decoded, bases.to_vec());
}

#[test]
fn masked_sites_become_n_and_nothing_else_changes() {
    let bases = b"ACGTTGCA";
    let payload = pack_bases(bases);
    let decoded = decode_read(&payload, 0, 8, &vec![2, 5]);
    assert_eq!(decoded, b"ACNTTNCA".to_vec());
}

#[test]
fn round_trip_with_masking_not_divisible_by_four() {
    let bases = b"CCCGG";
    let payload = pack_bases(bases);
    let decoded = decode_read(&payload, 0, 5, &vec![0]);
    assert_eq!(decoded, b"NCCGG".to_vec());
}

#[test]
fn decoded_lengths_match_length_section() {
    let lens: Vec<u32> = vec![3, 8, 0, 5];
    let reads: Vec<&[u8]> = vec![b"ACG", b"TTTTACGT", b"", b"GGGTA"];
    let payload: Vec<u8> = reads.iter().map(|r| pack_bases(r)).collect::<Vec<_>>().concat();
    let sites: Vec<Vec<u64>> = vec![vec![], vec![], vec![], vec![]];
    let seqs = iter_seq_bin(&payload, &lens, &sites, 0).unwrap();
    assert_eq!(seqs.len(), lens.len());
    for (s, &l) in seqs.iter().zip(lens.iter()) {
        assert_eq!(s.len(), l as usize);
    }
    let total: usize = seqs.iter().map(|s| s.len()).sum();
    let promised: usize = lens.iter().map(|&l| l as usize).sum();
    assert_eq!(total, promised);
}

#[test]
fn sequence_decoder_steps_and_stops() {
    let payload = [pack_bases(b"ACGT"), pack_bases(b"TTGGAC")].concat();
    let lens: Vec<u32> = vec![4, 6];
    let sites: Vec<Vec<u64>> = vec![vec![], vec![]];
    let mut dec = SeqDecoder::new(0);
    assert_eq!(dec.next(&payload, &lens, &sites).unwrap(), Some(b"ACGT".to_vec()));
    assert_eq!(dec.next(&payload, &lens, &sites).unwrap(), Some(b"TTGGAC".to_vec()));
    assert_eq!(dec.next(&payload, &lens, &sites).unwrap(), None);
}

#[test]
fn sequence_payload_truncated() {
    let payload = pack_bases(b"ACGT");
    let lens: Vec<u32> = vec![4, 6];
    let sites: Vec<Vec<u64>> = vec![vec![], vec![]];
    assert_eq!(
        iter_seq_bin(&payload, &lens, &sites, 0),
        Err(DecodeError::ContainerTruncated)
    );
}

#[test]
fn end_to_end_sequence_text() {
    // reads_count=2, lengths [4,6], no masked sites, names r1 and r2
    let payload = [pack_bases(b"ACGT"), pack_bases(b"TTGGAC")].concat();
    let d = build_seq_container(&[4, 6], &[vec![], vec![]], &[b"r1", b"r2"], &payload);
    let rs = read_seq_info(&d).unwrap();
    let seqs = iter_seq_bin(&d, &rs.read_lengths, &rs.masked_sites, rs.payload_offset).unwrap();
    let mut text: Vec<u8> = Vec::new();
    for (name, seq) in rs.read_names.iter().zip(seqs.iter()) {
        text.extend(fasta_record(name, seq));
    }
    assert_eq!(text, b">r1\nACGT\n>r2\nTTGGAC\n".to_vec());
}

#[test]
fn end_to_end_with_masking() {
    let payload = [pack_bases(b"ACGT"), pack_bases(b"TTGGAC")].concat();
    let d = build_seq_container(&[4, 6], &[vec![0], vec![5]], &[b"r1", b"r2"], &payload);
    let rs = read_seq_info(&d).unwrap();
    let seqs = iter_seq_bin(&d, &rs.read_lengths, &rs.masked_sites, rs.payload_offset).unwrap();
    assert_eq!(seqs[0], b"NCGT".to_vec());
    assert_eq!(seqs[1], b"TTGGAN".to_vec());
}
