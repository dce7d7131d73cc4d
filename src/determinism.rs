use vstd::prelude::*;
use crate::builder::{
    addr_at, built_from, closes_at, is_leader, is_sweep, segmented, starts_at_leader, stop_of,
    Fault,
};
use crate::cfg::{
    blocks_wf, contiguous, follows, has_block_at, lemma_contiguous_monotone, lemma_ordered_pairwise,
    BlockModel, Cfg,
};
use crate::insn::{CodeRegion, DecodeError, Insn};

verus! {

/// Two sweeps from the same entry agree on their first `k` instructions.
proof fn lemma_sweep_prefix(
    region: CodeRegion,
    entry: u64,
    s1: Seq<Insn>,
    f1: Option<Fault>,
    s2: Seq<Insn>,
    f2: Option<Fault>,
    k: int,
)
    requires
        is_sweep(region, entry, s1, f1),
        is_sweep(region, entry, s2, f2),
        0 <= k <= s1.len(),
        k <= s2.len(),
    ensures
        forall|j: int| 0 <= j < k ==> s1[j] == s2[j],
        addr_at(entry, s1, k) == addr_at(entry, s2, k) || k == s1.len() || k == s2.len(),
        k < s1.len() && k < s2.len() ==> s1[k].addr == s2[k].addr,
    decreases k,
{
    if k > 0 {
        lemma_sweep_prefix(region, entry, s1, f1, s2, f2, k - 1);
        let a = s1[k - 1].addr;
        assert(region.decode_spec(s1[k - 1].addr) == Ok::<Insn, DecodeError>(s1[k - 1]));
        assert(region.decode_spec(s2[k - 1].addr) == Ok::<Insn, DecodeError>(s2[k - 1]));
        if k < s1.len() && k < s2.len() {
            assert(follows(s1, k));
            assert(follows(s2, k));
        }
    }
}

/// The stream decoded from an entry, and where it stops, are unique.
pub proof fn lemma_sweep_unique(
    region: CodeRegion,
    entry: u64,
    s1: Seq<Insn>,
    f1: Option<Fault>,
    s2: Seq<Insn>,
    f2: Option<Fault>,
)
    requires
        is_sweep(region, entry, s1, f1),
        is_sweep(region, entry, s2, f2),
    ensures
        s1 == s2,
        f1 == f2,
{
    lemma_sweep_shorter(region, entry, s1, f1, s2, f2);
    lemma_sweep_shorter(region, entry, s2, f2, s1, f1);
    lemma_sweep_prefix(region, entry, s1, f1, s2, f2, s1.len() as int);
    assert(s1 =~= s2);
}

/// A sweep is never a proper prefix of another.
proof fn lemma_sweep_shorter(
    region: CodeRegion,
    entry: u64,
    s1: Seq<Insn>,
    f1: Option<Fault>,
    s2: Seq<Insn>,
    f2: Option<Fault>,
)
    requires
        is_sweep(region, entry, s1, f1),
        is_sweep(region, entry, s2, f2),
    ensures
        s1.len() >= s2.len(),
        s1.len() == s2.len() ==> f1 == f2,
{
    let n = s1.len() as int;
    if n <= s2.len() {
        lemma_sweep_prefix(region, entry, s1, f1, s2, f2, n);
        let stop = stop_of(entry, s1);
        if n > 0 {
            assert(s1[n - 1] == s2[n - 1]);
        }
        if n < s2.len() {
            if n > 0 {
                assert(follows(s2, n));
            }
            assert(s2[n].addr == stop);
            assert(region.decode_spec(s2[n].addr) == Ok::<Insn, DecodeError>(s2[n]));
            assert(s2[n].addr + s2[n].len <= region.limit());
        } else {
            assert(stop == stop_of(entry, s2));
            if f1 is Some && f2 is Some {
                assert(region.decode_spec(stop as u64) == Err::<Insn, DecodeError>(f1->0.error));
                assert(region.decode_spec(stop as u64) == Err::<Insn, DecodeError>(f2->0.error));
            }
        }
    }
}

/// Index of the first instruction at or after `j` where a block closes.
pub open spec fn first_close(s: Seq<Insn>, j: int) -> int
    decreases s.len() - j,
{
    if j >= s.len() - 1 || closes_at(s, j) {
        j
    } else {
        first_close(s, j + 1)
    }
}

proof fn lemma_first_close_range(s: Seq<Insn>, j: int)
    requires
        0 <= j < s.len(),
    ensures
        j <= first_close(s, j) < s.len(),
    decreases s.len() - j,
{
    if !(j >= s.len() - 1 || closes_at(s, j)) {
        lemma_first_close_range(s, j + 1);
    }
}

proof fn lemma_first_close(s: Seq<Insn>, i: int, j: int)
    requires
        0 <= i <= j < s.len(),
        closes_at(s, j),
        forall|m: int| i <= m < j ==> !closes_at(s, m),
    ensures
        first_close(s, i) == j,
    decreases j - i,
{
    if i < j {
        lemma_first_close(s, i + 1, j);
    }
}

/// No block starts at an instruction of another block other than its first.
proof fn lemma_inner_not_start(bs: Seq<BlockModel>, lo: u64, hi: u64, m: int, s: Seq<Insn>, i: int, q: int)
    requires
        blocks_wf(bs, lo, hi),
        contiguous(s, hi),
        0 <= m < bs.len(),
        0 <= i,
        i + bs[m].insns.len() <= s.len(),
        bs[m].insns == s.subrange(i, i + bs[m].insns.len()),
        i < q < i + bs[m].insns.len(),
    ensures
        !has_block_at(bs, s[q].addr),
{
    let b = bs[m];
    let j = i + b.insns.len() - 1;
    assert(b.wf(lo, hi));
    assert(b.insns[0] == s[i]);
    assert(b.insns[j - i] == s[j]);
    lemma_contiguous_monotone(s, hi, i, q);
    lemma_contiguous_monotone(s, hi, q, j);
    if has_block_at(bs, s[q].addr) {
        let p = choose|p: int| 0 <= p < bs.len() && bs[p].start == s[q].addr;
        assert(bs[p].wf(lo, hi));
        if p < m {
            lemma_ordered_pairwise(bs, lo, hi, p, m);
        } else if m < p {
            lemma_ordered_pairwise(bs, lo, hi, m, p);
        }
    }
}

/// A block that starts at the `i`-th instruction of the sweep holds the run
/// of the sweep from there, closing at its last instruction.
proof fn lemma_block_run(entry: u64, s: Seq<Insn>, fault: Option<Fault>, b: BlockModel, hi: u64, i: int)
    requires
        contiguous(s, hi),
        fault matches Some(f) ==> f.addr == stop_of(entry, s),
        starts_at_leader(entry, s, fault, b),
        0 <= i < s.len(),
        s[i].addr == b.start,
    ensures
        b.insns.len() > 0,
        i + b.insns.len() <= s.len(),
        b.insns == s.subrange(i, i + b.insns.len()),
        closes_at(s, i + b.insns.len() - 1),
{
    lemma_contiguous_monotone(s, hi, i, s.len() - 1);
    if exists|i2: int| 0 <= i2 < s.len() && #[trigger] s[i2].addr == b.start && is_leader(s, i2)
        && 0 < b.insns.len() && i2 + b.insns.len() <= s.len() && b.insns == s.subrange(i2, i2 + b.insns.len())
        && closes_at(s, i2 + b.insns.len() - 1) {
        let i2 = choose|i2: int| 0 <= i2 < s.len() && #[trigger] s[i2].addr == b.start && is_leader(s, i2)
            && 0 < b.insns.len() && i2 + b.insns.len() <= s.len() && b.insns == s.subrange(i2, i2 + b.insns.len())
            && closes_at(s, i2 + b.insns.len() - 1);
        if i2 < i {
            lemma_contiguous_monotone(s, hi, i2, i);
        } else if i < i2 {
            lemma_contiguous_monotone(s, hi, i, i2);
        }
        assert(i2 == i);
    } else {
        assert(s[s.len() - 1].len >= 1);
    }
}

/// In blocks segmented from the sweep `s`, a block that starts at the
/// `i`-th instruction runs up to the first place where a block closes.
proof fn lemma_block_shape(
    entry: u64,
    s: Seq<Insn>,
    fault: Option<Fault>,
    bs: Seq<BlockModel>,
    lo: u64,
    hi: u64,
    m: int,
    i: int,
)
    requires
        contiguous(s, hi),
        fault matches Some(f) ==> f.addr == stop_of(entry, s),
        segmented(entry, s, fault, bs),
        blocks_wf(bs, lo, hi),
        0 <= m < bs.len(),
        0 <= i < s.len(),
        s[i].addr == bs[m].start,
    ensures
        bs[m].insns == s.subrange(i, first_close(s, i) + 1),
{
    let b = bs[m];
    assert(starts_at_leader(entry, s, fault, b));
    lemma_block_run(entry, s, fault, b, hi, i);
    let j = i + b.insns.len() - 1;
    assert(b.wf(lo, hi));
    assert forall|mm: int| i <= mm < j implies !closes_at(s, mm) by {
        assert(b.insns[mm - i].kind == crate::insn::TransferKind::Plain);
        lemma_inner_not_start(bs, lo, hi, m, s, i, mm + 1);
    }
    lemma_first_close(s, i, j);
}

/// Two segmentations of the same sweep have equal blocks wherever they have
/// blocks with equal starts.
#[verifier::spinoff_prover]
#[verifier::rlimit(80)]
proof fn lemma_same_block(
    entry: u64,
    s: Seq<Insn>,
    fault: Option<Fault>,
    bs1: Seq<BlockModel>,
    bs2: Seq<BlockModel>,
    lo: u64,
    hi: u64,
    m1: int,
    m2: int,
)
    requires
        contiguous(s, hi),
        fault matches Some(f) ==> f.addr == stop_of(entry, s),
        segmented(entry, s, fault, bs1),
        segmented(entry, s, fault, bs2),
        blocks_wf(bs1, lo, hi),
        blocks_wf(bs2, lo, hi),
        0 <= m1 < bs1.len(),
        0 <= m2 < bs2.len(),
        bs1[m1].start == bs2[m2].start,
    ensures
        bs1[m1] == bs2[m2],
{
    assert(bs1[m1].wf(lo, hi));
    assert(bs2[m2].wf(lo, hi));
    if exists|i: int| 0 <= i < s.len() && #[trigger] s[i].addr == bs1[m1].start {
        let i = choose|i: int| 0 <= i < s.len() && #[trigger] s[i].addr == bs1[m1].start;
        lemma_block_shape(entry, s, fault, bs1, lo, hi, m1, i);
        lemma_block_shape(entry, s, fault, bs2, lo, hi, m2, i);
        lemma_first_close_range(s, i);
        lemma_wf_equal(bs1[m1], bs2[m2], lo, hi);
    } else {
        assert(starts_at_leader(entry, s, fault, bs1[m1]));
        assert(starts_at_leader(entry, s, fault, bs2[m2]));
        lemma_fault_block(entry, s, fault, bs1[m1], bs2[m2], lo, hi);
    }
}

/// Two blocks at the same address that is not an instruction of the sweep
/// are both the empty block where decoding failed.
proof fn lemma_fault_block(
    entry: u64,
    s: Seq<Insn>,
    fault: Option<Fault>,
    b1: BlockModel,
    b2: BlockModel,
    lo: u64,
    hi: u64,
)
    requires
        starts_at_leader(entry, s, fault, b1),
        starts_at_leader(entry, s, fault, b2),
        b1.wf(lo, hi),
        b2.wf(lo, hi),
        b1.start == b2.start,
        !(exists|i: int| 0 <= i < s.len() && #[trigger] s[i].addr == b1.start),
    ensures
        b1 == b2,
{
    assert(b1.insns =~= b2.insns);
    lemma_wf_equal(b1, b2, lo, hi);
}

/// Well-formed blocks with the same start, instructions and status are equal.
proof fn lemma_wf_equal(b1: BlockModel, b2: BlockModel, lo: u64, hi: u64)
    requires
        b1.wf(lo, hi),
        b2.wf(lo, hi),
        b1.start == b2.start,
        b1.insns == b2.insns,
        b1.insns.len() == 0 ==> b1.status == b2.status,
    ensures
        b1 == b2,
{
    if b1.insns.len() == 0 {
        assert(b1.succs =~= b2.succs);
    }
}

/// Two ordered block sequences with the same starts, and equal blocks at
/// equal starts, are equal.
proof fn lemma_sorted_equal(bs1: Seq<BlockModel>, bs2: Seq<BlockModel>, lo: u64, hi: u64)
    requires
        blocks_wf(bs1, lo, hi),
        blocks_wf(bs2, lo, hi),
        forall|a: u64| has_block_at(bs1, a) <==> has_block_at(bs2, a),
        forall|m1: int, m2: int|
            0 <= m1 < bs1.len() && 0 <= m2 < bs2.len() && #[trigger] bs1[m1].start == #[trigger] bs2[m2].start
                ==> bs1[m1] == bs2[m2],
    ensures
        bs1 == bs2,
{
    let n = if bs1.len() < bs2.len() { bs1.len() as int } else { bs2.len() as int };
    lemma_sorted_prefix(bs1, bs2, lo, hi, n);
    if bs1.len() < bs2.len() {
        assert(has_block_at(bs2, bs2[n].start));
        let q = choose|q: int| 0 <= q < bs1.len() && bs1[q].start == bs2[n].start;
        assert(bs1[q] == bs2[q]);
        lemma_ordered_pairwise(bs2, lo, hi, q, n);
    } else if bs2.len() < bs1.len() {
        assert(has_block_at(bs1, bs1[n].start));
        let q = choose|q: int| 0 <= q < bs2.len() && bs2[q].start == bs1[n].start;
        assert(bs1[q] == bs2[q]);
        lemma_ordered_pairwise(bs1, lo, hi, q, n);
    }
    assert(bs1 =~= bs2);
}

proof fn lemma_sorted_prefix(bs1: Seq<BlockModel>, bs2: Seq<BlockModel>, lo: u64, hi: u64, k: int)
    requires
        blocks_wf(bs1, lo, hi),
        blocks_wf(bs2, lo, hi),
        forall|a: u64| has_block_at(bs1, a) <==> has_block_at(bs2, a),
        forall|m1: int, m2: int|
            0 <= m1 < bs1.len() && 0 <= m2 < bs2.len() && #[trigger] bs1[m1].start == #[trigger] bs2[m2].start
                ==> bs1[m1] == bs2[m2],
        0 <= k <= bs1.len(),
        k <= bs2.len(),
    ensures
        forall|j: int| 0 <= j < k ==> bs1[j] == bs2[j],
    decreases k,
{
    if k > 0 {
        let c = k - 1;
        lemma_sorted_prefix(bs1, bs2, lo, hi, c);
        assert(has_block_at(bs1, bs1[c].start));
        let p = choose|p: int| 0 <= p < bs2.len() && bs2[p].start == bs1[c].start;
        assert(has_block_at(bs2, bs2[c].start));
        let q = choose|q: int| 0 <= q < bs1.len() && bs1[q].start == bs2[c].start;
        if p < c {
            assert(bs1[p] == bs2[p]);
            lemma_ordered_pairwise(bs1, lo, hi, p, c);
        }
        if q < c {
            assert(bs1[q] == bs2[q]);
            lemma_ordered_pairwise(bs2, lo, hi, q, c);
        }
        if p > c {
            lemma_ordered_pairwise(bs2, lo, hi, c, p);
            if q > c {
                lemma_ordered_pairwise(bs1, lo, hi, c, q);
            }
        }
        assert(bs1[c].start == bs2[c].start);
    }
}

/// Determinism: two graphs built from the same buffer and the same entry
/// have the same blocks, with the same instructions, boundaries and edges.
pub proof fn lemma_build_deterministic(region: CodeRegion, entry: u64, g1: Cfg, g2: Cfg)
    requires
        g1.wf(),
        g2.wf(),
        g1.lo == region.base && g2.lo == region.base,
        g1.hi == region.limit() && g2.hi == region.limit(),
        built_from(region, entry, g1@),
        built_from(region, entry, g2@),
    ensures
        g1@ == g2@,
{
    let (s1, f1) = choose|s: Seq<Insn>, fault: Option<Fault>|
        #[trigger] is_sweep(region, entry, s, fault) && segmented(entry, s, fault, g1@);
    let (s2, f2) = choose|s: Seq<Insn>, fault: Option<Fault>|
        #[trigger] is_sweep(region, entry, s, fault) && segmented(entry, s, fault, g2@);
    lemma_sweep_unique(region, entry, s1, f1, s2, f2);
    let lo = region.base;
    let hi = g1.hi;
    let bs1 = g1@;
    let bs2 = g2@;
    assert(blocks_wf(bs1, lo, hi));
    assert(blocks_wf(bs2, lo, hi));
    assert forall|m1: int, m2: int|
        0 <= m1 < bs1.len() && 0 <= m2 < bs2.len() && #[trigger] bs1[m1].start == #[trigger] bs2[m2].start
            implies bs1[m1] == bs2[m2] by {
        lemma_same_block(entry, s1, f1, bs1, bs2, lo, hi, m1, m2);
    }
    assert forall|a: u64| has_block_at(bs1, a) <==> has_block_at(bs2, a) by {
        lemma_same_starts(entry, s1, f1, bs1, bs2, a);
        lemma_same_starts(entry, s1, f1, bs2, bs1, a);
    }
    lemma_sorted_equal(bs1, bs2, lo, hi);
}

/// A block start of one segmentation of a sweep is a block start of any other.
proof fn lemma_same_starts(
    entry: u64,
    s: Seq<Insn>,
    fault: Option<Fault>,
    bs1: Seq<BlockModel>,
    bs2: Seq<BlockModel>,
    a: u64,
)
    requires
        fault matches Some(f) ==> f.addr == stop_of(entry, s),
        segmented(entry, s, fault, bs1),
        segmented(entry, s, fault, bs2),
    ensures
        has_block_at(bs1, a) ==> has_block_at(bs2, a),
{
    if has_block_at(bs1, a) {
        let m = choose|m: int| 0 <= m < bs1.len() && bs1[m].start == a;
        assert(starts_at_leader(entry, s, fault, bs1[m]));
        if exists|i: int| 0 <= i < s.len() && #[trigger] s[i].addr == a && is_leader(s, i) {
            let i = choose|i: int| 0 <= i < s.len() && #[trigger] s[i].addr == a && is_leader(s, i);
            assert(has_block_at(bs2, s[i].addr));
        }
    }
}

} // verus!
