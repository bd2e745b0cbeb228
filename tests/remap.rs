use plasmod::{
    is_primary, AlignmentRecord, Cigar, RemapError, Remapper, FLAG_DUPLICATE, FLAG_QC_FAIL,
    FLAG_SECONDARY, FLAG_SUPPLEMENTARY, FLAG_UNMAPPED, NONPRIMARY,
};

fn record(name: &str, flags: u16, pos: usize, cigar: Vec<Cigar>) -> AlignmentRecord {
    let n = name.len();
    AlignmentRecord {
        qname: name.as_bytes().to_vec(),
        flags,
        pos,
        cigar,
        seq: vec![b'A'; n],
        qual: (0..n as u8).collect(),
    }
}

#[test]
fn supplementary_record_is_dropped() {
    let m = Remapper::new(100, false).unwrap();
    let rec = record("read1", FLAG_SUPPLEMENTARY, 90, vec![Cigar::Match(20)]);
    assert_eq!(m.remap(rec.clone()), Ok(None));
    assert_eq!(m.remap_all(vec![rec]), Ok(vec![]));
}

#[test]
fn every_nonprimary_flag_drops() {
    for f in [FLAG_UNMAPPED, FLAG_SECONDARY, FLAG_QC_FAIL, FLAG_DUPLICATE, FLAG_SUPPLEMENTARY] {
        assert!(!is_primary(f));
        assert!(!is_primary(f | 0x1));
    }
    assert_eq!(NONPRIMARY, 0xF04);
    assert!(is_primary(0));
    assert!(is_primary(0x10 | 0x1 | 0x40));
}

#[test]
fn primary_record_is_remapped_with_fields_kept() {
    let m = Remapper::new(100, false).unwrap();
    let rec = record("wrapper", 0x10, 90, vec![Cigar::SoftClip(2), Cigar::Match(20)]);
    let out = m.remap(rec.clone()).unwrap().unwrap();
    assert_eq!(out.qname, rec.qname);
    assert_eq!(out.seq, rec.seq);
    assert_eq!(out.qual, rec.qual);
    assert_eq!(out.flags, 0x10);
    assert_eq!(out.pos, 0);
    assert_eq!(
        out.cigar,
        vec![Cigar::Match(10), Cigar::RefSkip(80), Cigar::SoftClip(2), Cigar::Match(10)]
    );
}

#[test]
fn stream_keeps_order_of_primary_records() {
    let m = Remapper::new(100, true).unwrap();
    let recs = vec![
        record("a", 0, 10, vec![Cigar::Match(5)]),
        record("b", FLAG_SECONDARY, 10, vec![Cigar::Match(5)]),
        record("c", 0, 150, vec![Cigar::Match(5)]),
        record("d", FLAG_UNMAPPED, 0, vec![]),
        record("e", 0, 95, vec![Cigar::Match(10)]),
    ];
    let out = m.remap_all(recs).unwrap();
    let names: Vec<&[u8]> = out.iter().map(|r| r.qname.as_slice()).collect();
    assert_eq!(names, vec![&b"a"[..], &b"c"[..], &b"e"[..]]);
    assert_eq!(out[0].pos, 10);
    assert_eq!(out[1].pos, 50);
    assert_eq!(out[2].pos, 0);
    assert_eq!(out[2].cigar, vec![Cigar::Match(5), Cigar::Del(90), Cigar::Match(5)]);
}

#[test]
fn span_longer_than_reference_is_refused() {
    let m = Remapper::new(100, false).unwrap();
    let rec = record("long", 0, 50, vec![Cigar::Match(60), Cigar::Del(41)]);
    assert_eq!(m.remap(rec.clone()), Err(RemapError::SpanExceedsReference));
    let ok = record("ok", 0, 0, vec![Cigar::Match(5)]);
    assert_eq!(m.remap_all(vec![ok, rec]), Err(RemapError::SpanExceedsReference));
    // a long span is no error on a record that is dropped anyway
    let skipped = record("skip", FLAG_DUPLICATE, 50, vec![Cigar::Match(500)]);
    assert_eq!(m.remap(skipped), Ok(None));
}

#[test]
fn reference_length_is_checked() {
    assert!(matches!(Remapper::new(0, false), Err(RemapError::ZeroReferenceLength)));
    assert!(matches!(
        Remapper::new(u32::MAX as usize + 1, false),
        Err(RemapError::ReferenceTooLong)
    ));
    let m = Remapper::new(u32::MAX as usize, true).unwrap();
    assert_eq!(m.ref_len, u32::MAX as usize);
    assert!(m.use_del);
}
