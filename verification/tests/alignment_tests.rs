use cnvcall::alignment::{Alignment, AlignmentType, Cigar, CigarOps, MapInfo, Nucleotide};

fn sample_alignment() -> Alignment {
    let cigars = vec![
        Cigar::new(CigarOps::Match, 3),
        Cigar::new(CigarOps::Insert, 1),
        Cigar::new(CigarOps::Delete, 2),
        Cigar::new(CigarOps::Soft, 1),
    ];
    // Bases A C G T N, packed two 4-bit codes per byte, high nibble first.
    let seq = vec![0x12u8, 0x48, 0xF0];
    Alignment::new(100, 5, 60, false, cigars, seq)
}

#[test]
fn alignment_getters() {
    let al = sample_alignment();
    assert_eq!(al.begin(), 100);
    assert_eq!(al.end(), 105);
    assert_eq!(al.length(), 5);
    assert_eq!(al.mqual(), 60);
    assert!(!al.is_split_read());
    assert_eq!(al.get_qpos(), (100, 105));
    assert_eq!(al.get_length(), 5);

    let seq = al.sequence();
    assert_eq!(seq.size(), 5);
    assert_eq!(seq.at(0), Nucleotide::A);
    assert_eq!(seq.at(1), Nucleotide::C);
    assert_eq!(seq.at(2), Nucleotide::G);
    assert_eq!(seq.at(3), Nucleotide::T);
    assert_eq!(seq.at(4), Nucleotide::N);
    assert_eq!(Nucleotide::A.as_char(), 'A');
    assert_eq!(Nucleotide::N.as_char(), 'N');
}

#[test]
fn cigar_word_decoding() {
    assert_eq!(Cigar::from_code(0x30), Some(Cigar { op: CigarOps::Match, len: 3 }));
    assert_eq!(Cigar::from_code((7 << 4) | 9), Some(Cigar { op: CigarOps::Back, len: 7 }));
    assert_eq!(Cigar::from_code(0xe), None);
    assert!(Cigar::new(CigarOps::Match, 2).in_alignment());
    assert!(Cigar::new(CigarOps::Match, 2).in_reference());
    assert!(!Cigar::new(CigarOps::Delete, 2).in_alignment());
    assert!(Cigar::new(CigarOps::Delete, 2).in_reference());
    assert!(Cigar::new(CigarOps::Soft, 2).in_alignment());
    assert!(!Cigar::new(CigarOps::Soft, 2).in_reference());
}

/// The cigar walk expands runs base by base, consuming read bases only for
/// read-consuming operations and reference coordinates only for
/// reference-consuming ones.
#[test]
fn cigar_walk_expands_runs() {
    let al = sample_alignment();
    let mut it = al.alignment();
    let mut got: Vec<MapInfo> = Vec::new();
    while let Some(info) = it.next_info() {
        got.push(info);
    }
    let expected = vec![
        MapInfo { idx: 0, read: Some(Nucleotide::A), refs: true },
        MapInfo { idx: 1, read: Some(Nucleotide::C), refs: true },
        MapInfo { idx: 2, read: Some(Nucleotide::G), refs: true },
        MapInfo { idx: 3, read: Some(Nucleotide::T), refs: false },
        MapInfo { idx: 4, read: None, refs: true },
        MapInfo { idx: 5, read: None, refs: true },
        MapInfo { idx: 6, read: Some(Nucleotide::N), refs: false },
    ];
    assert_eq!(got, expected);
}
