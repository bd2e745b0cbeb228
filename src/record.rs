use vstd::prelude::*;

use crate::cigar::{occupancy, ref_occupancy, Cigar};
use crate::split::{mod_cigar, placed};

verus! {

/// Flag bit of a read that did not align.
pub const FLAG_UNMAPPED: u16 = 0x4;

/// Flag bit of an alignment that is not the read's main one.
pub const FLAG_SECONDARY: u16 = 0x100;

/// Flag bit of a read that failed quality checks.
pub const FLAG_QC_FAIL: u16 = 0x200;

/// Flag bit of a read marked as a duplicate.
pub const FLAG_DUPLICATE: u16 = 0x400;

/// Flag bit of one part of a chimeric alignment other than the first.
pub const FLAG_SUPPLEMENTARY: u16 = 0x800;

/// The flag bits any of which mark a record as not primary.
pub const NONPRIMARY: u16 = FLAG_UNMAPPED | FLAG_SECONDARY | FLAG_QC_FAIL | FLAG_DUPLICATE
    | FLAG_SUPPLEMENTARY;

/// The fields of an alignment record that remapping reads or writes.
#[derive(Clone, Debug, PartialEq, Eq)]
pub struct AlignmentRecord {
    /// The read's name.
    pub qname: Vec<u8>,
    /// Status flag bits.
    pub flags: u16,
    /// 0-based leftmost reference position.
    pub pos: usize,
    /// The alignment's operations.
    pub cigar: Vec<Cigar>,
    /// The read's bases.
    pub seq: Vec<u8>,
    /// One quality value per base.
    pub qual: Vec<u8>,
}

/// Why a record or a run cannot be remapped.
#[derive(Clone, Copy, Debug, PartialEq, Eq, Structural)]
pub enum RemapError {
    /// The reference length is zero.
    ZeroReferenceLength,
    /// The reference length does not fit an operation length.
    ReferenceTooLong,
    /// An alignment covers more than one reference length, so it would
    /// wrap more than once.
    SpanExceedsReference,
}

/// Whether a record with these flags is a primary alignment.
pub open spec fn primary(flags: u16) -> bool {
    flags & NONPRIMARY == 0
}

/// `out` is `rec` placed on the single reference of length `l`: name, flags,
/// bases and qualities unchanged, position and operations split.
pub open spec fn remapped_from(out: AlignmentRecord, rec: AlignmentRecord, l: int, use_del: bool) -> bool {
    &&& out.qname@ == rec.qname@
    &&& out.flags == rec.flags
    &&& out.seq@ == rec.seq@
    &&& out.qual@ == rec.qual@
    &&& (out.pos as int, out.cigar@) == placed(l, rec.pos as int, rec.cigar@, use_del)
}

/// `out` is what a pass over `inp` emits: one remapped record for each
/// primary record, in input order, and nothing for the others.
pub open spec fn stream_remapped(
    out: Seq<AlignmentRecord>,
    inp: Seq<AlignmentRecord>,
    l: int,
    use_del: bool,
) -> bool
    decreases inp.len(),
{
    if inp.len() == 0 {
        out.len() == 0
    } else if !primary(inp.last().flags) {
        stream_remapped(out, inp.drop_last(), l, use_del)
    } else {
        &&& out.len() > 0
        &&& remapped_from(out.last(), inp.last(), l, use_del)
        &&& stream_remapped(out.drop_last(), inp.drop_last(), l, use_del)
    }
}

/// The number of primary records in `inp`.
pub open spec fn primary_count(inp: Seq<AlignmentRecord>) -> nat
    decreases inp.len(),
{
    if inp.len() == 0 {
        0
    } else {
        primary_count(inp.drop_last()) + if primary(inp.last().flags) {
            1nat
        } else {
            0nat
        }
    }
}

/// Counting primary records is additive over concatenation.
proof fn lemma_primary_count_concat(a: Seq<AlignmentRecord>, b: Seq<AlignmentRecord>)
    ensures
        primary_count(a + b) == primary_count(a) + primary_count(b),
    decreases b.len(),
{
    if b.len() == 0 {
        assert(a + b =~= a);
    } else {
        lemma_primary_count_concat(a, b.drop_last());
        assert((a + b).drop_last() =~= a + b.drop_last());
    }
}

/// A pass emits only primary records, one for each primary input record.
pub proof fn lemma_stream_only_primary(out: Seq<AlignmentRecord>, inp: Seq<AlignmentRecord>, l: int, use_del: bool)
    requires
        stream_remapped(out, inp, l, use_del),
    ensures
        out.len() == primary_count(inp),
        forall|j: int| 0 <= j < out.len() ==> primary(#[trigger] out[j].flags),
    decreases inp.len(),
{
    if inp.len() > 0 {
        if primary(inp.last().flags) {
            lemma_stream_only_primary(out.drop_last(), inp.drop_last(), l, use_del);
            assert forall|j: int| 0 <= j < out.len() implies primary(#[trigger] out[j].flags) by {
                if j < out.len() - 1 {
                    assert(out[j] == out.drop_last()[j]);
                }
            }
        } else {
            lemma_stream_only_primary(out, inp.drop_last(), l, use_del);
        }
    }
}

/// A pass keeps the order of its input: what it emits for a run of records
/// followed by another is what it emits for the first run, followed by what
/// it emits for the second.
pub proof fn lemma_stream_order(
    out: Seq<AlignmentRecord>,
    first: Seq<AlignmentRecord>,
    second: Seq<AlignmentRecord>,
    l: int,
    use_del: bool,
)
    requires
        stream_remapped(out, first + second, l, use_del),
    ensures
        primary_count(first) <= out.len(),
        stream_remapped(out.take(primary_count(first) as int), first, l, use_del),
        stream_remapped(out.skip(primary_count(first) as int), second, l, use_del),
    decreases second.len(),
{
    let n = primary_count(first) as int;
    lemma_stream_only_primary(out, first + second, l, use_del);
    lemma_primary_count_concat(first, second);
    if second.len() == 0 {
        assert(first + second =~= first);
        assert(out.take(n) =~= out);
        assert(out.skip(n).len() == 0);
    } else {
        let s = first + second;
        assert(s.drop_last() =~= first + second.drop_last());
        assert(s.last() == second.last());
        if primary(second.last().flags) {
            let o = out.drop_last();
            lemma_stream_order(o, first, second.drop_last(), l, use_del);
            assert(o.take(n) =~= out.take(n));
            assert(out.skip(n).drop_last() =~= o.skip(n));
            assert(out.skip(n).last() == out.last());
        } else {
            lemma_stream_order(out, first, second.drop_last(), l, use_del);
        }
    }
}

/// Every primary record of `inp` covers at most `l` reference bases.
pub open spec fn all_fit(inp: Seq<AlignmentRecord>, l: int) -> bool {
    forall|i: int|
        0 <= i < inp.len() && primary(#[trigger] inp[i].flags) ==> occupancy(inp[i].cigar@) <= l
}

/// Whether a record with these flags is a primary alignment.
pub fn is_primary(flags: u16) -> (r: bool)
    ensures
        r == primary(flags),
{
    flags & NONPRIMARY == 0
}

/// The settings of one remapping run: the length of the single reference,
/// and whether gaps are written as deletions rather than reference skips.
pub struct Remapper {
    pub ref_len: usize,
    pub use_del: bool,
}

impl Remapper {
    /// The reference length is positive and fits an operation length.
    pub open spec fn wf(&self) -> bool {
        0 < self.ref_len <= u32::MAX
    }

    /// The settings for a reference of length `ref_len`.
    pub fn new(ref_len: usize, use_del: bool) -> (r: Result<Remapper, RemapError>)
        ensures
            ref_len == 0 <==> r == Err::<Remapper, RemapError>(RemapError::ZeroReferenceLength),
            ref_len > u32::MAX <==> r == Err::<Remapper, RemapError>(RemapError::ReferenceTooLong),
            r is Ok <==> 0 < ref_len <= u32::MAX,
            r matches Ok(m) ==> m.wf() && m.ref_len == ref_len && m.use_del == use_del,
    {
        if ref_len == 0 {
            Err(RemapError::ZeroReferenceLength)
        } else if ref_len as u64 > u32::MAX as u64 {
            Err(RemapError::ReferenceTooLong)
        } else {
            Ok(Remapper { ref_len, use_del })
        }
    }

    /// Remaps one record: `None` for a record that is not primary, else the
    /// record with its position and operations placed on the single
    /// reference.
    pub fn remap(&self, rec: AlignmentRecord) -> (r: Result<Option<AlignmentRecord>, RemapError>)
        requires
            self.wf(),
        ensures
            r matches Ok(None) <==> !primary(rec.flags),
            r is Err <==> primary(rec.flags) && occupancy(rec.cigar@) > self.ref_len,
            r matches Err(e) ==> e == RemapError::SpanExceedsReference,
            r matches Ok(Some(out)) ==> remapped_from(out, rec, self.ref_len as int, self.use_del),
    {
        if !is_primary(rec.flags) {
            return Ok(None);
        }
        if ref_occupancy(rec.cigar.as_slice()) > self.ref_len as u128 {
            return Err(RemapError::SpanExceedsReference);
        }
        let (new_start, mapped) = mod_cigar(self.ref_len, rec.pos, rec.cigar.as_slice(), self.use_del);
        Ok(
            Some(
                AlignmentRecord {
                    qname: rec.qname,
                    flags: rec.flags,
                    pos: new_start,
                    cigar: mapped,
                    seq: rec.seq,
                    qual: rec.qual,
                },
            ),
        )
    }

    /// Remaps a whole run of records in order, keeping the primary ones; stops
    /// at the first primary record that covers more than one reference length.
    pub fn remap_all(&self, records: Vec<AlignmentRecord>) -> (r: Result<
        Vec<AlignmentRecord>,
        RemapError,
    >)
        requires
            self.wf(),
        ensures
            r is Ok <==> all_fit(records@, self.ref_len as int),
            r matches Ok(out) ==> stream_remapped(out@, records@, self.ref_len as int, self.use_del),
            r matches Err(e) ==> e == RemapError::SpanExceedsReference,
    {
        let ghost inp = records@;
        let ghost l = self.ref_len as int;
        let mut out: Vec<AlignmentRecord> = Vec::new();
        for rec in it: records.into_iter()
            invariant
                self.wf(),
                l == self.ref_len,
                it.seq() == inp,
                all_fit(inp.take(it.index() as int), l),
                stream_remapped(out@, inp.take(it.index() as int), l, self.use_del),
        {
            let ghost i = it.index() as int;
            let ghost r0 = rec;
            assert(inp.take(i + 1).drop_last() =~= inp.take(i));
            assert(inp.take(i + 1).last() == r0);
            match self.remap(rec) {
                Ok(None) => {},
                Ok(Some(o)) => {
                    let ghost before = out@;
                    out.push(o);
                    assert(out@.drop_last() =~= before);
                },
                Err(e) => {
                    assert(inp[i] == r0);
                    return Err(e);
                },
            }
            assert forall|j: int|
                0 <= j < inp.take(i + 1).len() && primary(
                    #[trigger] inp.take(i + 1)[j].flags,
                ) implies occupancy(inp.take(i + 1)[j].cigar@) <= l by {
                if j < i {
                    assert(inp.take(i + 1)[j] == inp.take(i)[j]);
                }
            }
        }
        assert(inp.take(inp.len() as int) =~= inp);
        Ok(out)
    }
}

} // verus!
