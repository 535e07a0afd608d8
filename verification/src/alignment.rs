//! Plain-value model of one aligned read: coordinates, mapping quality,
//! the packed nucleotide sequence and the cigar operations, together with
//! the walk that expands cigar runs into per-base mapping info.

use crate::scanner::ReadInfo;
use vstd::prelude::*;

verus! {

#[derive(Clone, Copy, Debug, PartialEq, Eq, Structural)]
pub enum Nucleotide {
    A,
    C,
    G,
    T,
    N,
}

#[derive(Clone, Copy, Debug, PartialEq, Eq, Structural)]
pub enum CigarOps {
    Match,
    Insert,
    Delete,
    Skip,
    Soft,
    Hard,
    Pad,
    Equal,
    Diff,
    Back,
}

#[derive(Clone, Copy, Debug, PartialEq, Eq, Structural)]
pub struct Cigar {
    pub op: CigarOps,
    pub len: u32,
}

/// The nucleotide encoded by one 4-bit code.
pub open spec fn spec_nucleotide_of(code: u32) -> Nucleotide {
    if code == 1 {
        Nucleotide::A
    } else if code == 2 {
        Nucleotide::C
    } else if code == 4 {
        Nucleotide::G
    } else if code == 8 {
        Nucleotide::T
    } else {
        Nucleotide::N
    }
}

/// The operation consumes bases of the read itself.
pub open spec fn spec_in_alignment(op: CigarOps) -> bool {
    op == CigarOps::Match || op == CigarOps::Insert || op == CigarOps::Soft || op
        == CigarOps::Equal || op == CigarOps::Diff
}

/// The operation consumes reference coordinates.
pub open spec fn spec_in_reference(op: CigarOps) -> bool {
    op == CigarOps::Match || op == CigarOps::Delete || op == CigarOps::Skip || op
        == CigarOps::Equal || op == CigarOps::Diff
}

impl Nucleotide {
    /// Decode one 4-bit sequence code.
    pub fn from_code(code: u32) -> (r: Nucleotide)
        ensures
            r == spec_nucleotide_of(code),
    {
        match code {
            1u32 => Nucleotide::A,
            2u32 => Nucleotide::C,
            4u32 => Nucleotide::G,
            8u32 => Nucleotide::T,
            _ => Nucleotide::N,
        }
    }

    /// The letter of this nucleotide.
    pub fn as_char(&self) -> (r: char)
        ensures
            r == (match *self {
                Nucleotide::A => 'A',
                Nucleotide::C => 'C',
                Nucleotide::G => 'G',
                Nucleotide::T => 'T',
                Nucleotide::N => 'N',
            }),
    {
        match self {
            Nucleotide::A => 'A',
            Nucleotide::C => 'C',
            Nucleotide::G => 'G',
            Nucleotide::T => 'T',
            Nucleotide::N => 'N',
        }
    }
}

impl Cigar {
    pub fn new(ops: CigarOps, len: u32) -> (r: Cigar)
        ensures
            r.op == ops,
            r.len == len,
    {
        Cigar { op: ops, len }
    }

    pub fn in_alignment(&self) -> (r: bool)
        ensures
            r == spec_in_alignment(self.op),
    {
        match self.op {
            CigarOps::Match | CigarOps::Insert | CigarOps::Soft | CigarOps::Equal
                | CigarOps::Diff => true,
            _ => false,
        }
    }

    pub fn in_reference(&self) -> (r: bool)
        ensures
            r == spec_in_reference(self.op),
    {
        match self.op {
            CigarOps::Match | CigarOps::Delete | CigarOps::Skip | CigarOps::Equal
                | CigarOps::Diff => true,
            _ => false,
        }
    }
}

/// The cigar run encoded by one 32-bit word: the low four bits select the
/// operation, the rest give the run length.
pub open spec fn spec_cigar_of(code: u32) -> Option<Cigar> {
    let op = code & 0xf;
    let len = code >> 4;
    if op == 0 {
        Some(Cigar { op: CigarOps::Match, len })
    } else if op == 1 {
        Some(Cigar { op: CigarOps::Insert, len })
    } else if op == 2 {
        Some(Cigar { op: CigarOps::Delete, len })
    } else if op == 3 {
        Some(Cigar { op: CigarOps::Skip, len })
    } else if op == 4 {
        Some(Cigar { op: CigarOps::Soft, len })
    } else if op == 5 {
        Some(Cigar { op: CigarOps::Hard, len })
    } else if op == 6 {
        Some(Cigar { op: CigarOps::Pad, len })
    } else if op == 7 {
        Some(Cigar { op: CigarOps::Equal, len })
    } else if op == 8 {
        Some(Cigar { op: CigarOps::Diff, len })
    } else if op == 9 {
        Some(Cigar { op: CigarOps::Back, len })
    } else {
        None
    }
}

impl Cigar {
    /// Decode one packed 32-bit cigar word.
    pub fn from_code(code: u32) -> (r: Option<Cigar>)
        ensures
            r == spec_cigar_of(code),
    {
        let op = code & 0xf;
        let len = code >> 4;
        match op {
            0u32 => Some(Cigar { op: CigarOps::Match, len }),
            1u32 => Some(Cigar { op: CigarOps::Insert, len }),
            2u32 => Some(Cigar { op: CigarOps::Delete, len }),
            3u32 => Some(Cigar { op: CigarOps::Skip, len }),
            4u32 => Some(Cigar { op: CigarOps::Soft, len }),
            5u32 => Some(Cigar { op: CigarOps::Hard, len }),
            6u32 => Some(Cigar { op: CigarOps::Pad, len }),
            7u32 => Some(Cigar { op: CigarOps::Equal, len }),
            8u32 => Some(Cigar { op: CigarOps::Diff, len }),
            9u32 => Some(Cigar { op: CigarOps::Back, len }),
            _ => None,
        }
    }
}

/// Per-base mapping info produced by the cigar walk.
#[derive(Clone, Copy, Debug, PartialEq, Eq, Structural)]
pub struct MapInfo {
    pub idx: u32,
    pub read: Option<Nucleotide>,
    pub refs: bool,
}

/// One aligned read held as plain values: the packed two-per-byte
/// nucleotide codes and the decoded cigar runs.
pub struct Alignment {
    pos: u32,
    qlen: u32,
    qual: u32,
    split: bool,
    cigars: Vec<Cigar>,
    seq_nibbles: Vec<u8>,
}

impl Alignment {
    pub closed spec fn spec_pos(self) -> int {
        self.pos as int
    }

    pub closed spec fn spec_qlen(self) -> int {
        self.qlen as int
    }

    pub closed spec fn spec_qual(self) -> int {
        self.qual as int
    }

    pub closed spec fn spec_split(self) -> bool {
        self.split
    }

    pub closed spec fn spec_cigars(self) -> Seq<Cigar> {
        self.cigars@
    }

    pub closed spec fn spec_nibbles(self) -> Seq<u8> {
        self.seq_nibbles@
    }

    pub open spec fn wf(self) -> bool {
        &&& self.spec_pos() + self.spec_qlen() <= u32::MAX
        &&& self.spec_nibbles().len() == (self.spec_qlen() + 1) / 2
        &&& forall|m: int|
            0 <= m < self.spec_cigars().len() ==> (#[trigger] self.spec_cigars()[m]).len >= 1
    }

    pub fn new(pos: u32, qlen: u32, qual: u32, split: bool, cigars: Vec<Cigar>, seq: Vec<u8>) -> (r:
        Alignment)
        requires
            pos + qlen <= u32::MAX,
            seq@.len() == (qlen + 1) / 2,
            forall|m: int| 0 <= m < cigars@.len() ==> (#[trigger] cigars@[m]).len >= 1,
        ensures
            r.wf(),
            r.spec_pos() == pos,
            r.spec_qlen() == qlen,
            r.spec_qual() == qual,
            r.spec_split() == split,
            r.spec_cigars() == cigars@,
            r.spec_nibbles() == seq@,
    {
        Alignment { pos, qlen, qual, split, cigars, seq_nibbles: seq }
    }

    pub fn begin(&self) -> (r: u32)
        ensures
            r == self.spec_pos(),
    {
        self.pos
    }

    pub fn end(&self) -> (r: u32)
        requires
            self.wf(),
        ensures
            r == self.spec_pos() + self.spec_qlen(),
    {
        self.pos + self.qlen
    }

    pub fn length(&self) -> (r: u32)
        ensures
            r == self.spec_qlen(),
    {
        self.qlen
    }

    pub fn mqual(&self) -> (r: u32)
        ensures
            r == self.spec_qual(),
    {
        self.qual
    }

    pub fn is_split_read(&self) -> (r: bool)
        ensures
            r == self.spec_split(),
    {
        self.split
    }

    /// The `idx`-th cigar run, if any.
    pub fn cigar(&self, idx: usize) -> (r: Option<Cigar>)
        ensures
            idx < self.spec_cigars().len() ==> r == Some(self.spec_cigars()[idx as int]),
            idx >= self.spec_cigars().len() ==> r is None,
    {
        if idx < self.cigars.len() {
            Some(self.cigars[idx])
        } else {
            None
        }
    }

    /// View of the packed nucleotide sequence.
    pub fn sequence(&self) -> (r: Sequence<'_>)
        requires
            self.wf(),
        ensures
            r.owner() == *self,
    {
        Sequence { alignment: self }
    }

    /// Walk this read's cigar runs base by base.
    pub fn alignment(&self) -> (r: MapInfoIter<'_>)
        requires
            self.wf(),
        ensures
            r.owner() == *self,
            r.wf(),
            r.produced() == 0,
    {
        MapInfoIter::new(self)
    }
}

/// The decoded nucleotide at `offset`: high nibble of the packed byte for
/// even offsets, low nibble for odd ones.
pub open spec fn spec_base_at(nibbles: Seq<u8>, offset: int) -> Nucleotide {
    let b = nibbles[offset / 2] as u32;
    if offset % 2 == 0 {
        spec_nucleotide_of(b >> 4)
    } else {
        spec_nucleotide_of(b & 0xf)
    }
}

pub struct Sequence<'a> {
    alignment: &'a Alignment,
}

impl<'a> Sequence<'a> {
    pub closed spec fn owner(self) -> Alignment {
        *self.alignment
    }

    pub fn size(&self) -> (r: usize)
        requires
            self.owner().wf(),
        ensures
            r == self.owner().spec_qlen(),
    {
        self.alignment.length() as usize
    }

    /// The nucleotide at `offset`.
    pub fn at(&self, offset: usize) -> (r: Nucleotide)
        requires
            self.owner().wf(),
            offset < self.owner().spec_qlen(),
        ensures
            r == spec_base_at(self.owner().spec_nibbles(), offset as int),
    {
        let b = self.alignment.seq_nibbles[offset / 2] as u32;
        if offset % 2 == 0 {
            Nucleotide::from_code(b >> 4)
        } else {
            Nucleotide::from_code(b & 0xf)
        }
    }
}

/// Walks cigar runs one base at a time, tracking how many read bases and
/// reference coordinates have been consumed.
pub struct MapInfoIter<'a> {
    ref_ofs: u32,
    read_ofs: u32,
    cigar_idx: usize,
    cigar: Cigar,
    count: u32,
    alignment: &'a Alignment,
}

impl<'a> MapInfoIter<'a> {
    pub closed spec fn owner(self) -> Alignment {
        *self.alignment
    }

    pub closed spec fn produced(self) -> int {
        self.count as int
    }

    pub closed spec fn read_consumed(self) -> int {
        self.read_ofs as int
    }

    pub closed spec fn ref_consumed(self) -> int {
        self.ref_ofs as int
    }

    pub closed spec fn run_left(self) -> int {
        self.cigar.len as int
    }

    pub closed spec fn next_run(self) -> int {
        self.cigar_idx as int
    }

    pub closed spec fn current_op(self) -> CigarOps {
        self.cigar.op
    }

    pub open spec fn wf(self) -> bool {
        &&& self.owner().wf()
        &&& self.next_run() <= self.owner().spec_cigars().len()
    }

    pub fn new(al: &'a Alignment) -> (r: MapInfoIter<'a>)
        requires
            al.wf(),
        ensures
            r.owner() == *al,
            r.wf(),
            r.produced() == 0,
            r.read_consumed() == 0,
            r.ref_consumed() == 0,
            r.run_left() == 0,
            r.next_run() == 0,
    {
        MapInfoIter {
            ref_ofs: 0,
            read_ofs: 0,
            cigar_idx: 0,
            cigar: Cigar { op: CigarOps::Match, len: 0 },
            count: 0,
            alignment: al,
        }
    }

    /// Produce the mapping info of the next base: when the current run is
    /// exhausted, the next cigar run is fetched; the walk ends when no runs
    /// remain.  The returned record tells whether the base consumes a read
    /// nucleotide (and which) and whether it consumes a reference
    /// coordinate.
    pub fn next_info(&mut self) -> (r: Option<MapInfo>)
        requires
            old(self).wf(),
            old(self).produced() < u32::MAX - 1,
            old(self).read_consumed() < u32::MAX - 1,
            old(self).ref_consumed() < u32::MAX - 1,
        ensures
            final(self).wf(),
            final(self).owner() == old(self).owner(),
            ({
                let fetch = old(self).run_left() == 0;
                let runs = old(self).owner().spec_cigars();
                if fetch && old(self).next_run() >= runs.len() {
                    &&& r is None
                    &&& final(self).produced() == old(self).produced()
                } else {
                    let cg = if fetch {
                        runs[old(self).next_run()]
                    } else {
                        Cigar { op: old(self).current_op(), len: old(self).run_left() as u32 }
                    };
                    let reads_base = spec_in_alignment(cg.op) && old(self).read_consumed() < old(
                        self,
                    ).owner().spec_qlen();
                    let info = MapInfo {
                        idx: old(self).produced() as u32,
                        read: if reads_base {
                            Some(
                                spec_base_at(
                                    old(self).owner().spec_nibbles(),
                                    old(self).read_consumed(),
                                ),
                            )
                        } else {
                            None
                        },
                        refs: spec_in_reference(cg.op),
                    };
                    &&& r == Some(info)
                    &&& final(self).produced() == old(self).produced() + 1
                    &&& final(self).run_left() == cg.len - 1
                    &&& final(self).current_op() == cg.op
                    &&& final(self).next_run() == (if fetch {
                        old(self).next_run() + 1
                    } else {
                        old(self).next_run()
                    })
                    &&& final(self).read_consumed() == (if reads_base {
                        old(self).read_consumed() + 1
                    } else {
                        old(self).read_consumed()
                    })
                    &&& final(self).ref_consumed() == (if spec_in_reference(cg.op) {
                        old(self).ref_consumed() + 1
                    } else {
                        old(self).ref_consumed()
                    })
                }
            }),
    {
        if self.cigar.len == 0 {
            if self.cigar_idx < self.alignment.cigars.len() {
                self.cigar = self.alignment.cigars[self.cigar_idx];
                self.cigar_idx = self.cigar_idx + 1;
            } else {
                return None;
            }
        }
        self.cigar.len = self.cigar.len - 1;

        let idx = self.count;
        self.count = self.count + 1;

        let next_refs = self.cigar.in_reference();
        let in_aln = self.cigar.in_alignment();
        let seq_len = self.alignment.length();
        let next_read = if in_aln && self.read_ofs < seq_len {
            let s = self.alignment.sequence();
            Some(s.at(self.read_ofs as usize))
        } else {
            None
        };
        if next_read.is_some() {
            self.read_ofs = self.read_ofs + 1;
        }
        if next_refs {
            self.ref_ofs = self.ref_ofs + 1;
        }
        Some(MapInfo { idx, read: next_read, refs: next_refs })
    }
}

/// The scanner's view of one modeled aligned read.  The end coordinate is
/// the read start plus its length, and both query positions coincide with
/// the coverage interval.
pub trait AlignmentType {
    spec fn info(&self) -> ReadInfo;

    spec fn valid(&self) -> bool;

    fn get_begin(&self) -> (r: u32)
        requires
            self.valid(),
        ensures
            r == self.info().begin,
    ;

    fn get_end(&self) -> (r: u32)
        requires
            self.valid(),
        ensures
            r == self.info().end,
    ;

    fn get_length(&self) -> (r: u32)
        requires
            self.valid(),
        ensures
            r == self.info().length,
    ;

    fn get_qpos(&self) -> (r: (u32, u32))
        requires
            self.valid(),
        ensures
            r == (self.info().begin, self.info().end),
    ;

    fn check_is_split_read(&self) -> (r: bool)
        requires
            self.valid(),
        ensures
            r == self.info().split,
    ;

    fn get_mqual(&self) -> (r: u32)
        requires
            self.valid(),
        ensures
            r == self.info().mqual,
    ;
}

impl AlignmentType for Alignment {
    open spec fn info(&self) -> ReadInfo {
        ReadInfo {
            begin: self.spec_pos() as u32,
            end: (self.spec_pos() + self.spec_qlen()) as u32,
            length: self.spec_qlen() as u32,
            mqual: self.spec_qual() as u32,
            split: self.spec_split(),
        }
    }

    open spec fn valid(&self) -> bool {
        self.wf()
    }

    fn get_begin(&self) -> (r: u32) {
        self.begin()
    }

    fn get_end(&self) -> (r: u32) {
        self.end()
    }

    fn get_length(&self) -> (r: u32) {
        self.length()
    }

    fn get_qpos(&self) -> (r: (u32, u32)) {
        (self.begin(), self.end())
    }

    fn check_is_split_read(&self) -> (r: bool) {
        self.is_split_read()
    }

    fn get_mqual(&self) -> (r: u32) {
        self.mqual()
    }
}

} // verus!
