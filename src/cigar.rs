use vstd::prelude::*;

verus! {

/// One alignment operation: its kind and its length in bases.
#[derive(Clone, Copy, Debug, PartialEq, Eq, Structural)]
pub enum Cigar {
    Match(u32),
    Ins(u32),
    Del(u32),
    RefSkip(u32),
    SoftClip(u32),
    HardClip(u32),
    Pad(u32),
    Equal(u32),
    Diff(u32),
}

/// The length carried by an operation, whatever its kind.
pub open spec fn op_len(c: Cigar) -> u32 {
    match c {
        Cigar::Match(n) => n,
        Cigar::Ins(n) => n,
        Cigar::Del(n) => n,
        Cigar::RefSkip(n) => n,
        Cigar::SoftClip(n) => n,
        Cigar::HardClip(n) => n,
        Cigar::Pad(n) => n,
        Cigar::Equal(n) => n,
        Cigar::Diff(n) => n,
    }
}

/// Whether an operation of this kind advances along the reference.
pub open spec fn consumes_ref(c: Cigar) -> bool {
    match c {
        Cigar::Match(_) | Cigar::Del(_) | Cigar::RefSkip(_) | Cigar::Equal(_) | Cigar::Diff(_) => true,
        _ => false,
    }
}

/// Reference bases covered by one operation.
pub open spec fn op_occupancy(c: Cigar) -> nat {
    if consumes_ref(c) {
        op_len(c) as nat
    } else {
        0
    }
}

/// Reference bases covered by a sequence of operations.
pub open spec fn occupancy(s: Seq<Cigar>) -> nat
    decreases s.len(),
{
    if s.len() == 0 {
        0
    } else {
        occupancy(s.drop_last()) + op_occupancy(s.last())
    }
}

/// Whether two operations are of the same kind, lengths aside.
pub open spec fn same_kind(a: Cigar, b: Cigar) -> bool {
    match (a, b) {
        (Cigar::Match(_), Cigar::Match(_)) => true,
        (Cigar::Ins(_), Cigar::Ins(_)) => true,
        (Cigar::Del(_), Cigar::Del(_)) => true,
        (Cigar::RefSkip(_), Cigar::RefSkip(_)) => true,
        (Cigar::SoftClip(_), Cigar::SoftClip(_)) => true,
        (Cigar::HardClip(_), Cigar::HardClip(_)) => true,
        (Cigar::Pad(_), Cigar::Pad(_)) => true,
        (Cigar::Equal(_), Cigar::Equal(_)) => true,
        (Cigar::Diff(_), Cigar::Diff(_)) => true,
        _ => false,
    }
}

/// The operation of the same kind as `c` with length `n`.
pub open spec fn with_len(c: Cigar, n: u32) -> Cigar {
    match c {
        Cigar::Match(_) => Cigar::Match(n),
        Cigar::Ins(_) => Cigar::Ins(n),
        Cigar::Del(_) => Cigar::Del(n),
        Cigar::RefSkip(_) => Cigar::RefSkip(n),
        Cigar::SoftClip(_) => Cigar::SoftClip(n),
        Cigar::HardClip(_) => Cigar::HardClip(n),
        Cigar::Pad(_) => Cigar::Pad(n),
        Cigar::Equal(_) => Cigar::Equal(n),
        Cigar::Diff(_) => Cigar::Diff(n),
    }
}

impl Cigar {
    /// The length of this operation.
    pub fn len(&self) -> (r: u32)
        ensures
            r == op_len(*self),
    {
        match self {
            Cigar::Match(n) => *n,
            Cigar::Ins(n) => *n,
            Cigar::Del(n) => *n,
            Cigar::RefSkip(n) => *n,
            Cigar::SoftClip(n) => *n,
            Cigar::HardClip(n) => *n,
            Cigar::Pad(n) => *n,
            Cigar::Equal(n) => *n,
            Cigar::Diff(n) => *n,
        }
    }

    /// Reference bases covered by this operation: its length if it
    /// consumes reference, else zero.
    pub fn ref_len(&self) -> (r: u32)
        ensures
            r == op_occupancy(*self),
    {
        match self {
            Cigar::Match(n) => *n,
            Cigar::Del(n) => *n,
            Cigar::RefSkip(n) => *n,
            Cigar::Equal(n) => *n,
            Cigar::Diff(n) => *n,
            _ => 0,
        }
    }
}

/// A new operation of the same kind as `ref_cig`, with length `len`.
pub fn new_cigar(ref_cig: &Cigar, len: u32) -> (r: Cigar)
    ensures
        r == with_len(*ref_cig, len),
        same_kind(r, *ref_cig),
        op_len(r) == len,
{
    match ref_cig {
        Cigar::Match(_) => Cigar::Match(len),
        Cigar::Ins(_) => Cigar::Ins(len),
        Cigar::Del(_) => Cigar::Del(len),
        Cigar::RefSkip(_) => Cigar::RefSkip(len),
        Cigar::SoftClip(_) => Cigar::SoftClip(len),
        Cigar::HardClip(_) => Cigar::HardClip(len),
        Cigar::Pad(_) => Cigar::Pad(len),
        Cigar::Equal(_) => Cigar::Equal(len),
        Cigar::Diff(_) => Cigar::Diff(len),
    }
}

/// Changing the length keeps the kind, and with it whether the operation
/// consumes reference.
pub proof fn lemma_with_len(c: Cigar, n: u32)
    ensures
        same_kind(with_len(c, n), c),
        op_len(with_len(c, n)) == n,
        consumes_ref(with_len(c, n)) == consumes_ref(c),
{
}

/// The occupancy of a concatenation is the sum of the occupancies.
pub proof fn lemma_occupancy_concat(a: Seq<Cigar>, b: Seq<Cigar>)
    ensures
        occupancy(a + b) == occupancy(a) + occupancy(b),
    decreases b.len(),
{
    if b.len() == 0 {
        assert(a + b =~= a);
    } else {
        lemma_occupancy_concat(a, b.drop_last());
        assert((a + b).drop_last() =~= a + b.drop_last());
    }
}

/// The occupancy of a prefix never exceeds that of a longer prefix.
pub proof fn lemma_occupancy_prefix_mono(s: Seq<Cigar>, i: int, j: int)
    requires
        0 <= i <= j <= s.len(),
    ensures
        occupancy(s.take(i)) <= occupancy(s.take(j)),
    decreases j - i,
{
    if i < j {
        lemma_occupancy_prefix_mono(s, i, j - 1);
        assert(s.take(j).drop_last() =~= s.take(j - 1));
    }
}

/// The reference bases covered by `cigars`: the sum of the lengths of the
/// operations that consume reference.
pub fn ref_occupancy(cigars: &[Cigar]) -> (r: u128)
    ensures
        r == occupancy(cigars@),
{
    let mut sum: u128 = 0;
    let mut i: usize = 0;
    while i < cigars.len()
        invariant
            i <= cigars@.len(),
            sum == occupancy(cigars@.take(i as int)),
            sum <= i * 0xFFFF_FFFFu128,
        decreases cigars@.len() - i,
    {
        let c = cigars[i];
        let n = c.ref_len();
        assert(cigars@.take(i + 1).drop_last() =~= cigars@.take(i as int));
        assert(sum + n <= (i + 1) * 0xFFFF_FFFFu128) by (nonlinear_arith)
            requires
                sum <= i * 0xFFFF_FFFFu128,
                n <= 0xFFFF_FFFFu32,
        ;
        assert(i < 0x1_0000_0000_0000_0000u128);
        sum = sum + n as u128;
        i = i + 1;
    }
    assert(cigars@.take(i as int) =~= cigars@);
    sum
}

} // verus!
