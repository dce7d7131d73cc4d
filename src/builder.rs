use vstd::prelude::*;
use crate::cfg::{
    contiguous, copy_range, follows, has_block_at, lemma_contiguous_monotone, lemma_ordered_pairwise,
    ordered, outgoing_edges, prescribed_edges, BasicBlock, BlockModel, BlockStatus, Cfg,
    EdgeKind,
};
use crate::error::{Error, Kind};
use crate::insn::{is_valid_bitness, CodeRegion, DecodeError, Insn, TransferKind};

verus! {

/// Where a sweep stopped on a decode error.
#[derive(Clone, Copy, Debug, PartialEq, Eq, Structural)]
pub struct Fault {
    pub addr: u64,
    pub error: DecodeError,
}

/// Address one past the last instruction of a sweep that began at `entry`.
pub open spec fn stop_of(entry: u64, s: Seq<Insn>) -> int {
    if s.len() == 0 {
        entry as int
    } else {
        s.last().addr + s.last().len
    }
}

/// Address of the `i`-th instruction of a sweep, or where it stopped.
pub open spec fn addr_at(entry: u64, s: Seq<Insn>, i: int) -> int {
    if i < s.len() {
        s[i].addr as int
    } else {
        stop_of(entry, s)
    }
}

/// `s` is the instruction stream decoded from `entry` onward, each instruction
/// directly after the one before, and `fault` says why decoding stopped.
pub open spec fn is_sweep(region: CodeRegion, entry: u64, s: Seq<Insn>, fault: Option<Fault>) -> bool {
    &&& s.len() > 0 ==> s[0].addr == entry
    &&& contiguous(s, region.limit() as u64)
    &&& forall|k: int| 0 <= k < s.len() ==> region.decode_spec(#[trigger] s[k].addr) == Ok::<Insn, DecodeError>(s[k])
    &&& match fault {
        None => stop_of(entry, s) == region.limit(),
        Some(f) => f.addr == stop_of(entry, s) && region.contains(f.addr as int) && region.decode_spec(
            f.addr,
        ) == Err::<Insn, DecodeError>(f.error),
    }
}

/// Whether `x` is a branch or call whose static target is `a`.
pub open spec fn hits(x: Insn, a: u64) -> bool {
    x.kind != TransferKind::Plain && x.kind != TransferKind::Return && x.target == Some(a)
}

/// Whether one of the first `j` instructions of `s` is a branch or call to `a`.
pub open spec fn targeted_by(s: Seq<Insn>, j: int, a: u64) -> bool
    decreases j,
{
    if j <= 0 {
        false
    } else {
        targeted_by(s, j - 1, a) || hits(s[j - 1], a)
    }
}

/// Whether the instruction after `x` starts a block: it follows a conditional
/// branch or a call.
pub open spec fn falls_into_next(x: Insn) -> bool {
    x.kind == TransferKind::ConditionalBranch || x.kind == TransferKind::Call
}

/// Whether the `i`-th instruction of the sweep `s` is a leader: the entry,
/// the fallthrough of a conditional branch or call, or a static target.
#[verifier::opaque]
pub open spec fn is_leader(s: Seq<Insn>, i: int) -> bool {
    i == 0 || falls_into_next(s[i - 1]) || targeted_by(s, s.len() as int, s[i].addr)
}

pub open spec fn status_of(e: DecodeError) -> BlockStatus {
    match e {
        DecodeError::Invalid => BlockStatus::Invalid,
        DecodeError::Truncated => BlockStatus::Truncated,
    }
}

/// Decodes forward from `entry` until the end of the region or the first
/// decode error.
pub fn sweep(region: &CodeRegion, entry: u64) -> (r: (Vec<Insn>, Option<Fault>))
    requires
        region.wf(),
        region.contains(entry as int),
    ensures
        is_sweep(*region, entry, r.0@, r.1),
{
    let mut s: Vec<Insn> = Vec::new();
    let mut addr = entry;
    let limit = region.base + region.code.len() as u64;
    while addr < limit
        invariant
            region.wf(),
            limit == region.limit(),
            region.base <= entry <= addr <= limit,
            addr == stop_of(entry, s@),
            s@.len() > 0 ==> s@[0].addr == entry,
            contiguous(s@, region.limit() as u64),
            forall|k: int| 0 <= k < s@.len() ==> region.decode_spec(#[trigger] s@[k].addr) == Ok::<
                Insn,
                DecodeError,
            >(s@[k]),
        decreases limit - addr,
    {
        match region.decode_at(addr) {
            Ok(i) => {
                let ghost old_s = s@;
                s.push(i);
                proof {
                    assert forall|k: int| 0 < k < s@.len() implies #[trigger] follows(s@, k) by {
                        if k < old_s.len() {
                            assert(follows(old_s, k));
                        }
                    }
                }
                addr = addr + i.len;
            },
            Err(e) => {
                return (s, Some(Fault { addr, error: e }));
            },
        }
    }
    (s, None)
}

/// Marks, for each instruction of a sweep, whether it is a leader.
pub fn leaders(s: &Vec<Insn>) -> (flags: Vec<bool>)
    ensures
        flags@.len() == s@.len(),
        forall|i: int| 0 <= i < s@.len() ==> flags@[i] == is_leader(s@, i),
{
    let n = s.len();
    let mut flags: Vec<bool> = Vec::new();
    let mut i: usize = 0;
    while i < n
        invariant
            n == s@.len(),
            i <= n,
            flags@.len() == i,
            forall|k: int| 0 <= k < i ==> flags@[k] == (k == 0 || falls_into_next(s@[k - 1])),
        decreases n - i,
    {
        if i == 0 {
            flags.push(true);
        } else {
            let prev = s[i - 1].kind;
            flags.push(prev == TransferKind::ConditionalBranch || prev == TransferKind::Call);
        }
        i = i + 1;
    }
    let mut j: usize = 0;
    while j < n
        invariant
            n == s@.len(),
            j <= n,
            flags@.len() == n,
            forall|k: int|
                0 <= k < n ==> flags@[k] == (k == 0 || falls_into_next(s@[k - 1]) || targeted_by(
                    s@,
                    j as int,
                    s@[k].addr,
                )),
        decreases n - j,
    {
        let x = s[j];
        if x.kind != TransferKind::Plain && x.kind != TransferKind::Return {
            if let Some(t) = x.target {
                let mut k: usize = 0;
                while k < n
                    invariant
                        n == s@.len(),
                        j < n,
                        k <= n,
                        x == s@[j as int],
                        hits(x, t),
                        flags@.len() == n,
                        forall|m: int|
                            0 <= m < n ==> flags@[m] == (m == 0 || falls_into_next(s@[m - 1])
                                || targeted_by(s@, j as int, s@[m].addr) || (m < k && s@[m].addr
                                == t)),
                    decreases n - k,
                {
                    if s[k].addr == t {
                        flags.set(k, true);
                    }
                    k = k + 1;
                }
            }
        }
        j = j + 1;
    }
    proof {
        reveal(is_leader);
    }
    flags
}

/// Whether a block ending with the `j`-th instruction of the sweep `s` ends
/// there because the sweep ends, the instruction transfers control, or the
/// next instruction is a leader.
pub open spec fn closes_at(s: Seq<Insn>, j: int) -> bool {
    j + 1 == s.len() || s[j].kind != TransferKind::Plain || is_leader(s, j + 1)
}

/// Whether the block `b` starts at a leader of the sweep `s`, or is the empty
/// block at the address where the sweep stopped on a decode error.
pub open spec fn starts_at_leader(entry: u64, s: Seq<Insn>, fault: Option<Fault>, b: BlockModel) -> bool {
    (exists|i: int| 0 <= i < s.len() && #[trigger] s[i].addr == b.start && is_leader(s, i)
        && 0 < b.insns.len() && i + b.insns.len() <= s.len() && b.insns == s.subrange(i, i + b.insns.len())
        && closes_at(s, i + b.insns.len() - 1)) || (fault is Some && b.start == stop_of(entry, s) && b.insns.len() == 0 && b.status == status_of(fault->0.error))
}


/// The block made of the instructions `s[i..=j]` of a sweep over `[lo, hi)`.
fn block_of(s: &Vec<Insn>, i: usize, j: usize, lo: u64, hi: u64) -> (b: BasicBlock)
    requires
        contiguous(s@, hi),
        i <= j < s@.len(),
        lo <= s@[i as int].addr,
        forall|m: int| i <= m < j ==> (#[trigger] s@[m]).kind == TransferKind::Plain,
    ensures
        b@.wf(lo, hi),
        b.start == s@[i as int].addr,
        b.end == s@[j as int].addr + s@[j as int].len,
        b.start < b.end,
        b@.insns == s@.subrange(i as int, j + 1),
{
    let n = s.len();
    let last = s[j];
    let insns = copy_range(s, i, j + 1);
    let succs = outgoing_edges(s[i].addr, last, lo, hi);
    let b = BasicBlock {
        start: s[i].addr,
        end: last.addr + last.len,
        insns,
        status: BlockStatus::Complete,
        succs,
    };
    assert(contiguous(b@.insns, hi)) by {
        assert forall|k: int| 0 < k < b@.insns.len() implies #[trigger] follows(b@.insns, k) by {
            assert(follows(s@, i + k));
        }
    }
    assert forall|k: int| 0 <= k < b@.insns.len() - 1 implies #[trigger] b@.insns[k].kind
        == TransferKind::Plain by {
        assert(s@[i + k].kind == TransferKind::Plain);
    }
    assert(s@[i as int].addr <= s@[j as int].addr) by {
        lemma_contiguous_monotone(s@, hi, i as int, j as int);
    }
    b
}


/// Addresses along a contiguous sweep never decrease.
proof fn lemma_sweep_monotone(entry: u64, s: Seq<Insn>, hi: u64, a: int, b: int)
    requires
        s.len() > 0 ==> s[0].addr == entry,
        contiguous(s, hi),
        0 <= a <= b <= s.len(),
    ensures
        addr_at(entry, s, a) <= addr_at(entry, s, b),
        a == 0 ==> addr_at(entry, s, a) == entry,
        stop_of(entry, s) <= hi || s.len() == 0,
    decreases b - a,
{
    if s.len() > 0 {
        assert(s[s.len() - 1].addr + s[s.len() - 1].len <= hi);
    }
    if a < b {
        lemma_sweep_monotone(entry, s, hi, a, b - 1);
        if b < s.len() {
            assert(follows(s, b));
        } else {
            assert(s[b - 1].len >= 1);
        }
    }
}

/// Blocks built so far: each well formed, starting at a leader, in address order.
pub open spec fn blocks_ok(
    lo: u64,
    hi: u64,
    entry: u64,
    s: Seq<Insn>,
    fault: Option<Fault>,
    bs: Seq<BlockModel>,
) -> bool {
    &&& forall|m: int| 0 <= m < bs.len() ==> (#[trigger] bs[m]).wf(lo, hi)
    &&& forall|m: int| 0 <= m < bs.len() ==> starts_at_leader(entry, s, fault, #[trigger] bs[m])
    &&& ordered(bs)
}

/// Cuts a sweep into basic blocks at its leaders and attaches to each block
/// the edges its terminator prescribes.
#[verifier::spinoff_prover]
#[verifier::rlimit(40)]
fn segment(region: &CodeRegion, entry: u64, s: &Vec<Insn>, fault: Option<Fault>, flags: &Vec<bool>) -> (g: Cfg)
    requires
        region.wf(),
        region.contains(entry as int),
        is_sweep(*region, entry, s@, fault),
        flags@.len() == s@.len(),
        forall|i: int| 0 <= i < s@.len() ==> flags@[i] == is_leader(s@, i),
    ensures
        g.wf(),
        g.entry == entry,
        g.lo == region.base,
        g.hi == region.limit(),
        forall|m: int| 0 <= m < g@.len() ==> starts_at_leader(entry, s@, fault, #[trigger] g@[m]),
        forall|k: int| 0 <= k < s@.len() && is_leader(s@, k) ==> has_block_at(g@, #[trigger] s@[k].addr),
        fault matches Some(f) ==> has_block_at(g@, f.addr),
{
    let n = s.len();
    let lo = region.base;
    let hi = region.base + region.code.len() as u64;
    proof {
        lemma_sweep_monotone(entry, s@, hi, 0, n as int);
        if n > 0 {
            lemma_leader_intro(s@, 0);
        }
    }
    let mut blocks: Vec<BasicBlock> = Vec::new();
    let mut i: usize = 0;
    while i < n
        invariant
            n == s@.len(),
            lo <= entry < hi,
            s@.len() > 0 ==> s@[0].addr == entry,
            contiguous(s@, hi),
            flags@.len() == n,
            forall|k: int| 0 <= k < n ==> flags@[k] == is_leader(s@, k),
            n > 0 ==> is_leader(s@, 0),
            i <= n,
            segment_ok(lo, hi, entry, s@, fault, blocks@.map_values(|b: BasicBlock| b@), i as int),
        decreases n - i,
    {
        if flags[i] {
            let mut j: usize = i;
            while j + 1 < n && s[j].kind == TransferKind::Plain && !flags[j + 1]
                invariant
                    n == s@.len(),
                    flags@.len() == n,
                    i <= j < n,
                    forall|m: int| i <= m < j ==> (#[trigger] s@[m]).kind == TransferKind::Plain,
                    forall|m: int| i < m <= j ==> !(#[trigger] flags@[m]),
                decreases n - j,
            {
                j = j + 1;
            }
            proof {
                lemma_sweep_monotone(entry, s@, hi, 0, i as int);
            }
            let b = block_of(s, i, j, lo, hi);
            let ghost old_bs = blocks@.map_values(|b: BasicBlock| b@);
            blocks.push(b);
            proof {
                assert(blocks@.map_values(|b: BasicBlock| b@) =~= old_bs.push(b@));
                if j + 1 < n {
                    assert(follows(s@, j + 1));
                }
                assert(closes_at(s@, j as int));
                lemma_leader_block(lo, hi, entry, s@, fault, old_bs, b@, i as int, j as int);
            }
            i = j + 1;
        } else {
            proof {
                if i + 1 < n {
                    assert(follows(s@, i + 1));
                }
                lemma_skip(lo, hi, entry, s@, fault, blocks@.map_values(|b: BasicBlock| b@), i as int);
            }
            i = i + 1;
        }
    }
    let ghost loop_bs = blocks@.map_values(|b: BasicBlock| b@);
    if let Some(f) = fault {
        let status = match f.error {
            DecodeError::Invalid => BlockStatus::Invalid,
            DecodeError::Truncated => BlockStatus::Truncated,
        };
        let ghost old_bs = blocks@.map_values(|b: BasicBlock| b@);
        blocks.push(BasicBlock { start: f.addr, end: f.addr, insns: Vec::new(), status, succs: Vec::new() });
        proof {
            let bs = blocks@.map_values(|b: BasicBlock| b@);
            let nb = blocks@.last()@;
            assert(bs =~= old_bs.push(nb));
            assert(nb.insns =~= seq![]);
            assert(nb.succs =~= seq![]);
            lemma_sweep_monotone(entry, s@, hi, 0, n as int);
            assert(nb.wf(lo, hi));
            assert(starts_at_leader(entry, s@, fault, nb));
            lemma_push_block(lo, hi, entry, s@, fault, old_bs, nb);
            assert(bs[bs.len() - 1].start == f.addr);
            assert forall|k: int| 0 <= k < n && is_leader(s@, k) implies has_block_at(
                bs,
                #[trigger] s@[k].addr,
            ) by {
                assert(has_block_at(old_bs, s@[k].addr));
                let m = choose|m: int| 0 <= m < old_bs.len() && old_bs[m].start == s@[k].addr;
                assert(bs[m] == old_bs[m]);
            }
        }
    } else {
        proof {
            if n == 0 {
                assert(false);
            }
        }
    }
    Cfg { entry, lo, hi, blocks }
}

/// What holds of the blocks cut from the first `i` instructions of a sweep.
pub open spec fn segment_ok(
    lo: u64,
    hi: u64,
    entry: u64,
    s: Seq<Insn>,
    fault: Option<Fault>,
    bs: Seq<BlockModel>,
    i: int,
) -> bool {
    &&& blocks_ok(lo, hi, entry, s, fault, bs)
    &&& bs.len() > 0 ==> bs.last().end <= addr_at(entry, s, i)
    &&& bs.len() > 0 ==> bs.last().start < bs.last().end
    &&& bs.len() > 0 ==> bs[0].start == entry
    &&& i > 0 ==> bs.len() > 0
    &&& forall|k: int| 0 <= k < i && is_leader(s, k) ==> has_block_at(bs, #[trigger] s[k].addr)
}

/// Passing over an instruction that is not a leader keeps the segmentation
/// invariant.
proof fn lemma_skip(lo: u64, hi: u64, entry: u64, s: Seq<Insn>, fault: Option<Fault>, bs: Seq<BlockModel>, i: int)
    requires
        segment_ok(lo, hi, entry, s, fault, bs, i),
        0 <= i < s.len(),
        !is_leader(s, i),
        addr_at(entry, s, i) <= addr_at(entry, s, i + 1),
        i == 0 ==> is_leader(s, i),
    ensures
        segment_ok(lo, hi, entry, s, fault, bs, i + 1),
{
}

/// Appending the block cut at leader `i` and closed at `j` keeps the
/// segmentation invariant, now up to `j + 1`.
proof fn lemma_leader_block(
    lo: u64,
    hi: u64,
    entry: u64,
    s: Seq<Insn>,
    fault: Option<Fault>,
    bs: Seq<BlockModel>,
    b: BlockModel,
    i: int,
    j: int,
)
    requires
        segment_ok(lo, hi, entry, s, fault, bs, i),
        0 <= i <= j < s.len(),
        is_leader(s, i),
        forall|m: int| i < m <= j ==> !is_leader(s, m),
        closes_at(s, j),
        addr_at(entry, s, i) == s[i].addr,
        i == 0 ==> s[i].addr == entry,
        addr_at(entry, s, j + 1) == s[j].addr + s[j].len,
        b.wf(lo, hi),
        b.start == s[i].addr,
        b.end == s[j].addr + s[j].len,
        b.start < b.end,
        b.insns == s.subrange(i, j + 1),
    ensures
        segment_ok(lo, hi, entry, s, fault, bs.push(b), j + 1),
{
    assert(starts_at_leader(entry, s, fault, b)) by {
        assert(s[i].addr == b.start);
        assert(i + b.insns.len() - 1 == j);
        assert(b.insns == s.subrange(i, i + b.insns.len()));
    }
    lemma_push_block(lo, hi, entry, s, fault, bs, b);
    let r = bs.push(b);
    assert forall|k: int| 0 <= k < j + 1 && is_leader(s, k) implies has_block_at(r, #[trigger] s[k].addr) by {
        if k < i {
            assert(has_block_at(bs, s[k].addr));
            let m = choose|m: int| 0 <= m < bs.len() && bs[m].start == s[k].addr;
            assert(r[m] == bs[m]);
        } else {
            assert(r[r.len() - 1].start == s[k].addr);
        }
    }
}

/// Appending a block that starts at or after the end of the last one keeps
/// the blocks in order.
proof fn lemma_push_block(
    lo: u64,
    hi: u64,
    entry: u64,
    s: Seq<Insn>,
    fault: Option<Fault>,
    bs: Seq<BlockModel>,
    b: BlockModel,
)
    requires
        blocks_ok(lo, hi, entry, s, fault, bs),
        b.wf(lo, hi),
        starts_at_leader(entry, s, fault, b),
        bs.len() > 0 ==> bs.last().end <= b.start && bs.last().start < b.start,
    ensures
        blocks_ok(lo, hi, entry, s, fault, bs.push(b)),
{
    let r = bs.push(b);
    assert forall|m: int| 0 <= m < r.len() - 1 implies #[trigger] r[m].end <= r[m + 1].start
        && r[m].start < r[m + 1].start by {
        if m < bs.len() - 1 {
            assert(r[m] == bs[m] && r[m + 1] == bs[m + 1]);
        }
    }
    assert forall|m: int| 0 <= m < r.len() implies (#[trigger] r[m]).wf(lo, hi) by {
        if m < bs.len() {
            assert(r[m] == bs[m]);
        }
    }
    assert forall|m: int| 0 <= m < r.len() implies starts_at_leader(entry, s, fault, #[trigger] r[m]) by {
        if m < bs.len() {
            assert(r[m] == bs[m]);
        }
    }
}

/// `bs` is the segmentation of the sweep `s`: every block starts at a leader
/// of it, and every leader, and the place of a decode error, starts a block.
pub open spec fn segmented(entry: u64, s: Seq<Insn>, fault: Option<Fault>, bs: Seq<BlockModel>) -> bool {
    &&& forall|m: int| 0 <= m < bs.len() ==> starts_at_leader(entry, s, fault, #[trigger] bs[m])
    &&& forall|k: int| 0 <= k < s.len() && is_leader(s, k) ==> has_block_at(bs, #[trigger] s[k].addr)
    &&& fault matches Some(f) ==> has_block_at(bs, f.addr)
}

/// The blocks `bs` are those of the sweep of `region` from `entry`.
pub open spec fn built_from(region: CodeRegion, entry: u64, bs: Seq<BlockModel>) -> bool {
    exists|s: Seq<Insn>, fault: Option<Fault>|
        #[trigger] is_sweep(region, entry, s, fault) && segmented(entry, s, fault, bs)
}

/// A decoding session over one code buffer, and graph construction on it.
pub struct CfgBuilder {
    pub region: CodeRegion,
}

impl CfgBuilder {
    pub open spec fn wf(&self) -> bool {
        self.region.wf()
    }

    /// Opens a session over `code` placed at address `ip`, decoded in the
    /// given bitness.
    pub fn build(code: Vec<u8>, bitness: u32, ip: u64) -> (r: CfgBuilder)
        requires
            is_valid_bitness(bitness),
            ip + code@.len() <= u64::MAX,
        ensures
            r.wf(),
            r.region.code@ == code@,
            r.region.base == ip,
            r.region.bitness == bitness,
    {
        CfgBuilder { region: CodeRegion { code, base: ip, bitness } }
    }

    /// Builds the control-flow graph of the function entered at `entry`.
    /// Fails only when `entry` lies outside the buffer.
    pub fn build_cfg(&self, entry: u64) -> (r: Result<Cfg, Error>)
        requires
            self.wf(),
        ensures
            r is Err <==> !self.region.contains(entry as int),
            r matches Err(e) ==> e.kind == Kind::OutOfRange && e.causes@.len() == 0,
            r matches Ok(g) ==> {
                &&& g.wf()
                &&& g.entry == entry
                &&& g.lo == self.region.base
                &&& g.hi == self.region.limit()
                &&& built_from(self.region, entry, g@)
            },
    {
        let region = &self.region;
        if entry < region.base || entry - region.base >= region.code.len() as u64 {
            return Err(Error::new(Kind::OutOfRange));
        }
        let (s, fault) = sweep(region, entry);
        let flags = leaders(&s);
        let g = segment(region, entry, &s, fault, &flags);
        assert(is_sweep(*region, entry, s@, fault) && segmented(entry, s@, fault, g@));
        Ok(g)
    }
}

/// A branch or call among the first `j` instructions that targets `a`
/// makes `a` targeted.
proof fn lemma_targeted_by(s: Seq<Insn>, j: int, k: int, a: u64)
    requires
        0 <= k < j <= s.len(),
        hits(s[k], a),
    ensures
        targeted_by(s, j, a),
    decreases j,
{
    if k < j - 1 {
        lemma_targeted_by(s, j - 1, k, a);
    }
}

/// An instruction after a conditional branch or call, or at the target of
/// a branch or call, is a leader.
proof fn lemma_leader_intro(s: Seq<Insn>, k: int)
    requires
        0 <= k < s.len(),
        k == 0 || falls_into_next(s[k - 1]) || targeted_by(s, s.len() as int, s[k].addr),
    ensures
        is_leader(s, k),
{
    reveal(is_leader);
}

/// A targeted address is the target of one of the instructions.
proof fn lemma_targeted_witness(s: Seq<Insn>, j: int, a: u64)
    requires
        targeted_by(s, j, a),
        j <= s.len(),
    ensures
        exists|k: int| 0 <= k < j && #[trigger] hits(s[k], a),
    decreases j,
{
    if !hits(s[j - 1], a) {
        lemma_targeted_witness(s, j - 1, a);
    }
}

/// Leader closure: every block of a graph built from `entry` starts at an
/// instruction boundary of the stream decoded from `entry`, and that
/// boundary is the entry, the fallthrough of a conditional branch or call,
/// or the static target of a branch or call; or it is the empty block where
/// decoding failed.
pub proof fn lemma_leader_closure(
    region: CodeRegion,
    entry: u64,
    s: Seq<Insn>,
    fault: Option<Fault>,
    bs: Seq<BlockModel>,
    m: int,
)
    requires
        is_sweep(region, entry, s, fault),
        segmented(entry, s, fault, bs),
        0 <= m < bs.len(),
    ensures
        (exists|i: int|
            0 <= i < s.len() && #[trigger] s[i].addr == bs[m].start && ((i == 0 && bs[m].start == entry)
                || (i > 0 && falls_into_next(s[i - 1])) || (exists|k: int|
                0 <= k < s.len() && #[trigger] hits(s[k], bs[m].start))))
            || (fault matches Some(f) && bs[m].start == f.addr && bs[m].insns.len() == 0),
{
    assert(starts_at_leader(entry, s, fault, bs[m]));
    if exists|i: int| 0 <= i < s.len() && #[trigger] s[i].addr == bs[m].start && is_leader(s, i)
        && bs[m].insns == s.subrange(i, i + bs[m].insns.len()) && closes_at(s, i + bs[m].insns.len() - 1) {
        let i = choose|i: int| 0 <= i < s.len() && #[trigger] s[i].addr == bs[m].start && is_leader(s, i)
            && bs[m].insns == s.subrange(i, i + bs[m].insns.len()) && closes_at(s, i + bs[m].insns.len() - 1);
        reveal(is_leader);
        if targeted_by(s, s.len() as int, s[i].addr) {
            lemma_targeted_witness(s, s.len() as int, s[i].addr);
        }
    }
}

/// An edge of a built graph that stays in the function and leads to an
/// instruction of the decoded stream, or to where decoding failed, leads to
/// the start of a block.
proof fn lemma_edge_target(
    entry: u64,
    s: Seq<Insn>,
    fault: Option<Fault>,
    bs: Seq<BlockModel>,
    lo: u64,
    hi: u64,
    m: int,
    e: int,
)
    requires
        s.len() > 0 ==> s[0].addr == entry,
        contiguous(s, hi),
        fault is None ==> stop_of(entry, s) == hi,
        fault matches Some(f) ==> f.addr == stop_of(entry, s),
        segmented(entry, s, fault, bs),
        0 <= m < bs.len(),
        bs[m].wf(lo, hi),
        0 <= e < bs[m].succs.len(),
    ensures
        ({
            let edge = bs[m].succs[e];
            (edge.kind != EdgeKind::Call && edge.target is Some && ((exists|k: int|
                0 <= k < s.len() && #[trigger] s[k].addr == edge.target->0) || (fault matches Some(f) && f.addr
                == edge.target->0))) ==> has_block_at(bs, edge.target->0)
        }),
{
    let b = bs[m];
    assert(starts_at_leader(entry, s, fault, b));
    if b.insns.len() == 0 {
        assert(b.succs.len() == 0);
    } else {
        let i = choose|i: int| 0 <= i < s.len() && #[trigger] s[i].addr == b.start && is_leader(s, i)
            && 0 < b.insns.len() && i + b.insns.len() <= s.len() && b.insns == s.subrange(i, i + b.insns.len())
            && closes_at(s, i + b.insns.len() - 1);
        let j = i + b.insns.len() - 1;
        let last = s[j];
        assert(b.insns.last() == last);
        let edge = b.succs[e];
        if edge.kind != EdgeKind::Call && edge.target is Some {
            let t = edge.target->0;
            if edge.kind == EdgeKind::Taken {
                assert(hits(last, t));
                lemma_targeted_by(s, s.len() as int, j, t);
                if exists|k: int| 0 <= k < s.len() && #[trigger] s[k].addr == t {
                    let k = choose|k: int| 0 <= k < s.len() && #[trigger] s[k].addr == t;
                    lemma_leader_intro(s, k);
                }
            } else {
                assert(t == last.addr + last.len);
                if j + 1 < s.len() {
                    assert(follows(s, j + 1));
                    if last.kind != TransferKind::Plain {
                        assert(falls_into_next(last));
                        lemma_leader_intro(s, j + 1);
                    } else {
                        assert(closes_at(s, j));
                    }
                    assert(s[j + 1].addr == t);
                } else {
                    assert(t < hi);
                }
            }
        }
    }
}

/// Partition, within the linear sweep: each block of a graph built from
/// `entry` holds a run of the stream decoded linearly from `entry`, blocks
/// do not overlap, and every edge that stays in the function (neither a call
/// nor unresolved) and leads to an instruction of that stream, or to where
/// decoding stopped, leads to the start of a block. Targets outside that
/// stream (before the entry, past a decode error, or inside an instruction)
/// are not covered here.
pub proof fn lemma_partition(
    region: CodeRegion,
    entry: u64,
    s: Seq<Insn>,
    fault: Option<Fault>,
    g: Cfg,
    m: int,
    e: int,
    m2: int,
)
    requires
        g.wf(),
        g.lo == region.base,
        g.hi == region.limit(),
        is_sweep(region, entry, s, fault),
        segmented(entry, s, fault, g@),
        0 <= m < g@.len(),
        0 <= m2 < g@.len(),
        0 <= e < g@[m].succs.len(),
    ensures
        exists|i: int| 0 <= i <= s.len() && g@[m].insns == #[trigger] s.subrange(i, i + g@[m].insns.len()),
        m < m2 ==> g@[m].end <= g@[m2].start,
        ({
            let edge = g@[m].succs[e];
            (edge.kind != EdgeKind::Call && edge.target is Some && ((exists|k: int|
                0 <= k < s.len() && #[trigger] s[k].addr == edge.target->0) || (fault matches Some(f) && f.addr
                == edge.target->0))) ==> has_block_at(g@, edge.target->0)
        }),
{
    let bs = g@;
    if m < m2 {
        lemma_ordered_pairwise(bs, g.lo, g.hi, m, m2);
    }
    assert(bs[m].wf(g.lo, g.hi));
    assert(starts_at_leader(entry, s, fault, bs[m]));
    if bs[m].insns.len() == 0 {
        assert(bs[m].insns =~= s.subrange(0, 0));
    }
    lemma_edge_target(entry, s, fault, bs, g.lo, g.hi, m, e);
}

} // verus!
