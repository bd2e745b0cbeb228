use vstd::prelude::*;

use vstd::arithmetic::div_mod::{lemma_mod_sub_multiples_vanish, lemma_small_mod};

use crate::cigar::{
    lemma_occupancy_concat, lemma_occupancy_prefix_mono, lemma_with_len, new_cigar, occupancy,
    op_occupancy, ref_occupancy, with_len, consumes_ref, Cigar,
};

verus! {

/// The operation with index `k` is the one that reaches the boundary at `l`:
/// the alignment, begun at `start`, lies before the boundary when that
/// operation begins and has reached it when the operation ends.
pub open spec fn crosses_at(l: int, start: int, ops: Seq<Cigar>, k: int) -> bool {
    &&& 0 <= k < ops.len()
    &&& start + occupancy(ops.take(k)) < l
    &&& l <= start + occupancy(ops.take(k + 1))
}

/// An alignment begun at `start` in the first copy reaches the boundary.
pub open spec fn wraps(l: int, start: int, ops: Seq<Cigar>) -> bool {
    start < l && l <= start + occupancy(ops)
}

/// The index of the operation that reaches the boundary.
pub open spec fn crossing_index(l: int, start: int, ops: Seq<Cigar>) -> int {
    choose|k: int| crosses_at(l, start, ops, k)
}

/// Reference bases of the crossing operation that lie before the boundary.
pub open spec fn head_len(l: int, start: int, ops: Seq<Cigar>, k: int) -> int {
    l - start - occupancy(ops.take(k))
}

/// The operations that land in the first copy: those before the crossing
/// one, then the crossing one cut at the boundary.
pub open spec fn direct_part(l: int, start: int, ops: Seq<Cigar>, k: int) -> Seq<Cigar> {
    ops.take(k).push(with_len(ops[k], head_len(l, start, ops, k) as u32))
}

/// The operations that land in the second copy: the rest of the crossing
/// operation, then every operation after it.
pub open spec fn wrapped_part(l: int, start: int, ops: Seq<Cigar>, k: int) -> Seq<Cigar> {
    seq![with_len(ops[k], (op_occupancy(ops[k]) - head_len(l, start, ops, k)) as u32)] + ops.skip(
        k + 1,
    )
}

/// The operations of an alignment that land in the first copy.
pub open spec fn direct_group(l: int, start: int, ops: Seq<Cigar>) -> Seq<Cigar> {
    direct_part(l, start, ops, crossing_index(l, start, ops))
}

/// The operations of an alignment that land in the second copy.
pub open spec fn wrapped_group(l: int, start: int, ops: Seq<Cigar>) -> Seq<Cigar> {
    wrapped_part(l, start, ops, crossing_index(l, start, ops))
}

/// The operation that fills the reference left uncovered.
pub open spec fn gap_op(len: u32, use_del: bool) -> Cigar {
    if use_del {
        Cigar::Del(len)
    } else {
        Cigar::RefSkip(len)
    }
}

/// Reference bases between the end of the wrapped part and the start of the
/// direct part: what the alignment does not cover of a reference of length `l`.
pub open spec fn gap_len(l: int, ops: Seq<Cigar>) -> int {
    l - occupancy(ops)
}

/// Where an alignment begun at `start` on the doubled reference, with
/// operations `ops`, lies on the single reference of length `l`.
pub open spec fn placed(l: int, start: int, ops: Seq<Cigar>, use_del: bool) -> (int, Seq<Cigar>) {
    if start >= l {
        (start % l, ops)
    } else if !wraps(l, start, ops) {
        (start, ops)
    } else {
        (
            0,
            wrapped_group(l, start, ops) + seq![gap_op(gap_len(l, ops) as u32, use_del)]
                + direct_group(l, start, ops),
        )
    }
}

/// At most one operation reaches the boundary.
proof fn lemma_crossing_unique(l: int, start: int, ops: Seq<Cigar>, k: int, j: int)
    requires
        crosses_at(l, start, ops, k),
        crosses_at(l, start, ops, j),
    ensures
        k == j,
{
    if k < j {
        lemma_occupancy_prefix_mono(ops, k + 1, j);
    } else if j < k {
        lemma_occupancy_prefix_mono(ops, j + 1, k);
    }
}

/// Some operation at index `k` or later reaches the boundary, when the
/// alignment is still before it at `k` and reaches it by the end.
proof fn lemma_crossing_from(l: int, start: int, ops: Seq<Cigar>, k: int)
    requires
        0 <= k < ops.len(),
        start + occupancy(ops.take(k)) < l,
        l <= start + occupancy(ops),
    ensures
        exists|j: int| crosses_at(l, start, ops, j),
    decreases ops.len() - k,
{
    if start + occupancy(ops.take(k + 1)) < l {
        if k + 1 == ops.len() {
            assert(ops.take(k + 1) =~= ops);
        } else {
            lemma_crossing_from(l, start, ops, k + 1);
        }
    } else {
        assert(crosses_at(l, start, ops, k));
    }
}

/// An alignment that wraps has exactly one crossing operation.
proof fn lemma_crossing_exists(l: int, start: int, ops: Seq<Cigar>)
    requires
        wraps(l, start, ops),
        ops.len() > 0,
    ensures
        crosses_at(l, start, ops, crossing_index(l, start, ops)),
        forall|j: int| crosses_at(l, start, ops, j) ==> j == crossing_index(l, start, ops),
{
    assert(ops.take(0) =~= Seq::<Cigar>::empty());
    lemma_crossing_from(l, start, ops, 0);
    let c = crossing_index(l, start, ops);
    assert forall|j: int| crosses_at(l, start, ops, j) implies j == c by {
        lemma_crossing_unique(l, start, ops, j, c);
    }
}

/// Splitting at the crossing operation loses no reference bases.
proof fn lemma_parts_occupancy(l: int, start: int, ops: Seq<Cigar>, k: int)
    requires
        crosses_at(l, start, ops, k),
    ensures
        consumes_ref(ops[k]),
        0 < head_len(l, start, ops, k) <= op_occupancy(ops[k]),
        occupancy(direct_part(l, start, ops, k)) == head_len(l, start, ops, k) + occupancy(
            ops.take(k),
        ),
        occupancy(wrapped_part(l, start, ops, k)) + occupancy(direct_part(l, start, ops, k))
            == occupancy(ops),
{
    let h = head_len(l, start, ops, k);
    let c = ops[k];
    assert(ops.take(k + 1).drop_last() =~= ops.take(k));
    assert(ops.take(k + 1).last() == c);
    let hd = with_len(c, h as u32);
    let tl = with_len(c, (op_occupancy(c) - h) as u32);
    lemma_with_len(c, h as u32);
    lemma_with_len(c, (op_occupancy(c) - h) as u32);
    assert(direct_part(l, start, ops, k).drop_last() =~= ops.take(k));
    lemma_occupancy_concat(seq![tl], ops.skip(k + 1));
    assert(seq![tl].drop_last() =~= Seq::<Cigar>::empty());
    assert(occupancy(Seq::<Cigar>::empty()) == 0);
    assert(occupancy(seq![tl]) == op_occupancy(tl));
    assert(op_occupancy(tl) == op_occupancy(c) - h);
    assert(op_occupancy(hd) == h);
    lemma_occupancy_concat(ops.take(k + 1), ops.skip(k + 1));
    assert(ops.take(k + 1) + ops.skip(k + 1) =~= ops);
}

/// An alignment that ends before the boundary keeps its start and its
/// operations.
pub proof fn lemma_no_wrap_identity(l: int, start: int, ops: Seq<Cigar>, use_del: bool)
    requires
        0 < l,
        0 <= start,
        start + occupancy(ops) < l,
    ensures
        placed(l, start, ops, use_del) == (start, ops),
{
}

/// An alignment that starts in the second copy keeps its operations and
/// moves back by one reference length.
pub proof fn lemma_second_copy_identity(l: int, start: int, ops: Seq<Cigar>, use_del: bool)
    requires
        0 < l <= start < 2 * l,
    ensures
        placed(l, start, ops, use_del) == (start - l, ops),
{
    lemma_mod_sub_multiples_vanish(start, l);
    lemma_small_mod((start - l) as nat, l as nat);
}

/// When an alignment wraps, its output is the wrapped group, the gap and the
/// direct group, and their reference lengths add up to the reference length.
pub proof fn lemma_gap_accounting(l: int, start: int, ops: Seq<Cigar>, use_del: bool)
    requires
        0 <= start,
        wraps(l, start, ops),
        occupancy(ops) <= l <= u32::MAX,
    ensures
        placed(l, start, ops, use_del) == (
            0int,
            wrapped_group(l, start, ops) + seq![gap_op(gap_len(l, ops) as u32, use_del)]
                + direct_group(l, start, ops),
        ),
        occupancy(wrapped_group(l, start, ops)) + gap_len(l, ops) + occupancy(
            direct_group(l, start, ops),
        ) == l,
        occupancy(placed(l, start, ops, use_del).1) == l,
{
    if ops.len() == 0 {
        assert(occupancy(ops) == 0);
    }
    lemma_crossing_exists(l, start, ops);
    let k = crossing_index(l, start, ops);
    lemma_parts_occupancy(l, start, ops, k);
    let w = wrapped_group(l, start, ops);
    let d = direct_group(l, start, ops);
    let g = seq![gap_op(gap_len(l, ops) as u32, use_del)];
    assert(g.drop_last() =~= Seq::<Cigar>::empty());
    assert(0 <= gap_len(l, ops) <= u32::MAX);
    assert(op_occupancy(g.last()) == gap_len(l, ops));
    assert(occupancy(g) == occupancy(g.drop_last()) + op_occupancy(g.last()));
    lemma_occupancy_concat(w, g);
    lemma_occupancy_concat(w + g, d);
}

/// The policy flag chooses only the kind of the gap operation: a deletion
/// when it is set, a reference skip when not, of the same length at the same
/// place, with everything else alike.
pub proof fn lemma_gap_kind(l: int, start: int, ops: Seq<Cigar>)
    requires
        0 <= start,
        wraps(l, start, ops),
        occupancy(ops) <= l <= u32::MAX,
    ensures
        ({
            let (a, x) = placed(l, start, ops, true);
            let (b, y) = placed(l, start, ops, false);
            let g = wrapped_group(l, start, ops).len() as int;
            let n = gap_len(l, ops) as u32;
            &&& a == b
            &&& x.len() == y.len()
            &&& 0 <= g < x.len()
            &&& x[g] == Cigar::Del(n)
            &&& y[g] == Cigar::RefSkip(n)
            &&& forall|i: int| 0 <= i < x.len() && i != g ==> x[i] == y[i]
        }),
{
    lemma_gap_accounting(l, start, ops, true);
    lemma_gap_accounting(l, start, ops, false);
}

/// Maps an alignment on the doubled reference onto the single reference of
/// length `ref_len`. An alignment that crosses the boundary between the two
/// copies starts at 0 and lists the part past the boundary, then a gap
/// operation (a deletion if `use_del`, else a reference skip), then the part
/// before the boundary.
pub fn mod_cigar(ref_len: usize, aln_pos: usize, cigars: &[Cigar], use_del: bool) -> (r: (
    usize,
    Vec<Cigar>,
))
    requires
        0 < ref_len <= u32::MAX,
        occupancy(cigars@) <= ref_len,
    ensures
        r.0 < ref_len,
        (r.0 as int, r.1@) == placed(ref_len as int, aln_pos as int, cigars@, use_del),
{
    let ghost ops = cigars@;
    let ghost l = ref_len as int;
    let ghost start = aln_pos as int;

    // an alignment that starts in the second copy keeps its operations
    if aln_pos >= ref_len {
        let mut same: Vec<Cigar> = Vec::new();
        let mut j: usize = 0;
        while j < cigars.len()
            invariant
                j <= ops.len(),
                ops == cigars@,
                same@ == ops.take(j as int),
            decreases ops.len() - j,
        {
            same.push(cigars[j]);
            assert(ops.take(j + 1) =~= ops.take(j as int).push(ops[j as int]));
            j = j + 1;
        }
        assert(ops.take(j as int) =~= ops);
        return (aln_pos % ref_len, same);
    }
    let l64: u64 = ref_len as u64;
    let mut pos: u64 = aln_pos as u64;

    // operations that land in the first copy
    let mut suffix: Vec<Cigar> = Vec::new();
    // operations that run on into the second copy
    let mut prefix: Vec<Cigar> = Vec::new();
    let ghost mut k: int = 0;

    let mut i: usize = 0;
    assert(ops.take(0) =~= Seq::<Cigar>::empty());
    while i < cigars.len()
        invariant
            i <= ops.len(),
            ops == cigars@,
            l == ref_len,
            l64 == l,
            0 < l <= u32::MAX,
            start == aln_pos,
            start < l,
            occupancy(ops) <= l,
            pos == start + occupancy(ops.take(i as int)),
            pos < l ==> suffix@ == ops.take(i as int) && prefix@.len() == 0,
            pos >= l ==> {
                &&& 0 <= k < i
                &&& crosses_at(l, start, ops, k)
                &&& suffix@ == direct_part(l, start, ops, k)
                &&& prefix@ == wrapped_part(l, start, ops, k).take(i - k)
            },
        decreases ops.len() - i,
    {
        let op = cigars[i];
        let n = op.ref_len();
        proof {
            assert(ops.take(i + 1).drop_last() =~= ops.take(i as int));
            lemma_occupancy_prefix_mono(ops, i + 1, ops.len() as int);
            assert(ops.take(ops.len() as int) =~= ops);
        }
        if pos >= l64 {
            prefix.push(op);
            proof {
                let w = wrapped_part(l, start, ops, k);
                assert(w.take(i + 1 - k) =~= w.take(i - k).push(ops[i as int]));
            }
        } else if pos + (n as u64) < l64 {
            suffix.push(op);
            assert(ops.take(i + 1) =~= ops.take(i as int).push(op));
        } else {
            // this operation reaches the boundary: cut it there
            let first_half: u64 = l64 - pos;
            let second_half: u64 = n as u64 - first_half;
            proof {
                k = i as int;
                assert(crosses_at(l, start, ops, k));
            }
            suffix.push(new_cigar(&op, first_half as u32));
            prefix.push(new_cigar(&op, second_half as u32));
            proof {
                let w = wrapped_part(l, start, ops, k);
                assert(w.take(1) =~= prefix@);
                assert(suffix@ =~= direct_part(l, start, ops, k));
            }
        }
        pos = pos + n as u64;
        i = i + 1;
    }
    assert(ops.take(i as int) =~= ops);

    if prefix.len() == 0 {
        // nothing reached the second copy
        return (aln_pos, suffix);
    }
    proof {
        lemma_crossing_exists(l, start, ops);
        lemma_parts_occupancy(l, start, ops, k);
        let w = wrapped_part(l, start, ops, k);
        assert(w.take(ops.len() - k) =~= w);
    }
    let end_of_prefix = ref_occupancy(prefix.as_slice());
    let len_of_suffix = ref_occupancy(suffix.as_slice());
    let gap_len: u32 = (l64 as u128 - end_of_prefix - len_of_suffix) as u32;
    let gap = if use_del {
        Cigar::Del(gap_len)
    } else {
        Cigar::RefSkip(gap_len)
    };
    let mut out = prefix;
    out.push(gap);
    out.append(&mut suffix);
    proof {
        assert(out@ =~= placed(l, start, ops, use_del).1);
    }
    (0, out)
}

} // verus!
