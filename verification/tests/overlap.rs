use hifiasm2txt::fmt::{ovl_line, strand_symbol, u64_dec};
use hifiasm2txt::ovl::{iter_ovl_bin, OvlDecoder, Strand};
use hifiasm2txt::resource::realtime;
use hifiasm2txt::DecodeError;

fn ovl_record(qn: u32, qs: u32, qe: u32, tn: u32, ts: u32, te: u32, strand: u32) -> Vec<u8> {
    let mut r = Vec::new();
    let qns = ((qn as u64) << 32) | qs as u64;
    r.extend(qns.to_le_bytes());
    r.extend(qe.to_le_bytes());
    r.extend(tn.to_le_bytes());
    r.extend(ts.to_le_bytes());
    r.extend(te.to_le_bytes());
    r.push(0);
    r.push(0);
    r.extend(0u32.to_le_bytes());
    r.extend(strand.to_le_bytes());
    r.extend(0u32.to_le_bytes());
    r.extend(0u32.to_le_bytes());
    assert_eq!(r.len(), 42);
    r
}

fn ovl_container(query_count: i64, blocks: &[(i32, Vec<Vec<u8>>)]) -> Vec<u8> {
    let mut d = Vec::new();
    d.extend(query_count.to_le_bytes());
    for (count, records) in blocks {
        d.push(0);
        d.push(0);
        d.extend(count.to_le_bytes());
        for r in records {
            d.extend(r);
        }
    }
    d
}

#[test]
fn one_block_one_record() {
    // query_index=0, query_start=0, query_end=10, target_index=1,
    // target_start=5, target_end=12, strand=1
    let d = ovl_container(1, &[(1, vec![ovl_record(0, 0, 10, 1, 5, 12, 1)])]);
    let recs = iter_ovl_bin(&d).unwrap();
    assert_eq!(recs.len(), 1);
    let r = &recs[0];
    assert_eq!(r.query_index, 0);
    assert_eq!(r.query_start, 0);
    assert_eq!(r.query_end, 10);
    assert_eq!(r.target_index, 1);
    assert_eq!(r.target_start, 5);
    assert_eq!(r.target_end, 12);
    assert_eq!(r.match_length, 7);
    assert_eq!(r.alignment_length, 10);
    assert_eq!(r.strand, Strand::Reverse);
    assert_eq!(strand_symbol(r.strand), b'-');
}

#[test]
fn span_statistics_do_not_depend_on_side() {
    // query span 5, target span 9
    let d1 = ovl_container(1, &[(1, vec![ovl_record(0, 10, 15, 1, 20, 29, 0)])]);
    // swapped: query span 9, target span 5
    let d2 = ovl_container(1, &[(1, vec![ovl_record(0, 20, 29, 1, 10, 15, 0)])]);
    let r1 = iter_ovl_bin(&d1).unwrap()[0];
    let r2 = iter_ovl_bin(&d2).unwrap()[0];
    assert_eq!(r1.match_length, 5);
    assert_eq!(r1.alignment_length, 9);
    assert_eq!(r2.match_length, 5);
    assert_eq!(r2.alignment_length, 9);
}

#[test]
fn strand_codes() {
    let d = ovl_container(
        1,
        &[(
            3,
            vec![
                ovl_record(0, 0, 4, 1, 0, 4, 0),
                ovl_record(0, 0, 4, 1, 0, 4, 1),
                ovl_record(0, 0, 4, 1, 0, 4, 2),
            ],
        )],
    );
    let recs = iter_ovl_bin(&d).unwrap();
    assert_eq!(recs[0].strand, Strand::Forward);
    assert_eq!(recs[1].strand, Strand::Reverse);
    assert_eq!(recs[2].strand, Strand::Forward);
}

#[test]
fn negative_query_count_is_empty() {
    let d = ovl_container(-1, &[]);
    assert_eq!(iter_ovl_bin(&d).unwrap(), vec![]);
}

#[test]
fn zero_query_count_is_empty() {
    let d = ovl_container(0, &[]);
    assert_eq!(iter_ovl_bin(&d).unwrap(), vec![]);
}

#[test]
fn empty_blocks_are_walked_through() {
    let d = ovl_container(
        3,
        &[
            (0, vec![]),
            (1, vec![ovl_record(1, 2, 6, 0, 1, 3, 0)]),
            (0, vec![]),
        ],
    );
    let recs = iter_ovl_bin(&d).unwrap();
    assert_eq!(recs.len(), 1);
    assert_eq!(recs[0].query_index, 1);
    assert_eq!(recs[0].match_length, 2);
    assert_eq!(recs[0].alignment_length, 4);
}

#[test]
fn negative_block_count_yields_no_records() {
    let d = ovl_container(1, &[(-1, vec![])]);
    assert_eq!(iter_ovl_bin(&d).unwrap(), vec![]);
}

#[test]
fn overlap_container_too_short() {
    let d = vec![0u8; 7];
    assert_eq!(iter_ovl_bin(&d), Err(DecodeError::ContainerTruncated));
}

#[test]
fn overlap_header_truncated() {
    let mut d = ovl_container(1, &[]);
    d.extend([0u8, 0, 1]); // block header cut short
    assert_eq!(iter_ovl_bin(&d), Err(DecodeError::ContainerTruncated));
}

#[test]
fn overlap_record_truncated() {
    let mut d = ovl_container(1, &[(1, vec![ovl_record(0, 0, 4, 1, 0, 4, 0)])]);
    d.truncate(d.len() - 1);
    assert_eq!(iter_ovl_bin(&d), Err(DecodeError::ContainerTruncated));
}

#[test]
fn overlap_reversed_span_is_rejected() {
    let d = ovl_container(1, &[(1, vec![ovl_record(0, 10, 4, 1, 0, 4, 0)])]);
    assert_eq!(iter_ovl_bin(&d), Err(DecodeError::SpanInvalid));
}

#[test]
fn overlap_decoder_steps_and_stops() {
    let d = ovl_container(
        2,
        &[
            (1, vec![ovl_record(0, 0, 4, 1, 0, 4, 0)]),
            (1, vec![ovl_record(1, 1, 5, 0, 2, 8, 1)]),
        ],
    );
    let mut dec = OvlDecoder::new(&d).unwrap();
    let first = dec.next(&d).unwrap().unwrap();
    assert_eq!(first.query_index, 0);
    let second = dec.next(&d).unwrap().unwrap();
    assert_eq!(second.query_index, 1);
    assert_eq!(second.strand, Strand::Reverse);
    assert_eq!(dec.next(&d).unwrap(), None);
}

#[test]
fn overlap_query_index_comes_from_high_bits() {
    let d = ovl_container(1, &[(1, vec![ovl_record(7, 3, 9, 2, 0, 6, 0)])]);
    let r = iter_ovl_bin(&d).unwrap()[0];
    assert_eq!(r.query_index, 7);
    assert_eq!(r.query_start, 3);
    assert_eq!(r.query_end, 9);
}

#[test]
fn decimal_rendering() {
    assert_eq!(u64_dec(0), b"0".to_vec());
    assert_eq!(u64_dec(7), b"7".to_vec());
    assert_eq!(u64_dec(1234567890), b"1234567890".to_vec());
    assert_eq!(u64_dec(u64::MAX), b"18446744073709551615".to_vec());
}

#[test]
fn overlap_line_text() {
    let d = ovl_container(1, &[(1, vec![ovl_record(0, 0, 10, 1, 5, 12, 1)])]);
    let r = iter_ovl_bin(&d).unwrap()[0];
    let line = ovl_line(&b"r1".to_vec(), 10, &r, &b"r2".to_vec(), 12);
    assert_eq!(line, b"r1\t10\t0\t10\t-\tr2\t12\t5\t12\t7\t10\n".to_vec());
}

#[test]
fn overlap_line_forward_strand() {
    let d = ovl_container(1, &[(1, vec![ovl_record(2, 1, 6, 3, 0, 5, 0)])]);
    let r = iter_ovl_bin(&d).unwrap()[0];
    let line = ovl_line(&b"qq".to_vec(), 6, &r, &b"tt".to_vec(), 5);
    assert_eq!(line, b"qq\t6\t1\t6\t+\ttt\t5\t0\t5\t5\t5\n".to_vec());
}

#[test]
fn elapsed_seconds() {
    assert_eq!(realtime(100, 100), 0);
    assert_eq!(realtime(100, 161), 61);
}
