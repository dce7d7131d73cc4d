use vstd::prelude::*;
use crate::insn::{Insn, TransferKind};

verus! {

/// Classification of a control-flow edge.
#[derive(Clone, Copy, Debug, PartialEq, Eq, Structural)]
pub enum EdgeKind {
    Fallthrough,
    Taken,
    NotTaken,
    Call,
    Unresolved,
}

/// An edge from the block starting at `source`; `target` is absent for an
/// unresolved transfer.
#[derive(Clone, Copy, Debug, PartialEq, Eq, Structural)]
pub struct Edge {
    pub source: u64,
    pub kind: EdgeKind,
    pub target: Option<u64>,
}

/// How a block was closed.
#[derive(Clone, Copy, Debug, PartialEq, Eq, Structural)]
pub enum BlockStatus {
    /// Closed at a terminator, before a leader, or at the end of the buffer.
    Complete,
    /// Decoding failed here because the buffer ends mid-instruction.
    Truncated,
    /// Decoding failed here on an undecodable opcode.
    Invalid,
}

/// A basic block: a run of instructions with no internal leader.
#[derive(Debug)]
pub struct BasicBlock {
    pub start: u64,
    /// One past the last byte of the last instruction.
    pub end: u64,
    pub insns: Vec<Insn>,
    pub status: BlockStatus,
    /// Outgoing edges, in the order the terminator prescribes.
    pub succs: Vec<Edge>,
}

/// Mathematical view of a basic block.
pub ghost struct BlockModel {
    pub start: u64,
    pub end: u64,
    pub insns: Seq<Insn>,
    pub status: BlockStatus,
    pub succs: Seq<Edge>,
}

impl View for BasicBlock {
    type V = BlockModel;

    open spec fn view(&self) -> BlockModel {
        BlockModel {
            start: self.start,
            end: self.end,
            insns: self.insns@,
            status: self.status,
            succs: self.succs@,
        }
    }
}

/// An edge of the given kind to `t` when `t` lies in `[lo, hi)`; otherwise
/// the transfer leaves the region and is recorded as unresolved.
pub open spec fn link(source: u64, kind: EdgeKind, t: int, lo: u64, hi: u64) -> Edge {
    if lo <= t < hi {
        Edge { source, kind, target: Some(t as u64) }
    } else {
        unresolved(source)
    }
}

pub open spec fn unresolved(source: u64) -> Edge {
    Edge { source, kind: EdgeKind::Unresolved, target: None }
}

/// The outgoing edges of a block starting at `source` that ends with `last`.
pub open spec fn prescribed_edges(source: u64, last: Insn, lo: u64, hi: u64) -> Seq<Edge> {
    let ft = last.addr + last.len;
    match last.kind {
        TransferKind::Plain => seq![link(source, EdgeKind::Fallthrough, ft, lo, hi)],
        TransferKind::ConditionalBranch => match last.target {
            Some(t) => seq![
                link(source, EdgeKind::Taken, t as int, lo, hi),
                link(source, EdgeKind::NotTaken, ft, lo, hi),
            ],
            None => seq![link(source, EdgeKind::NotTaken, ft, lo, hi), unresolved(source)],
        },
        TransferKind::UnconditionalBranch => match last.target {
            Some(t) => seq![link(source, EdgeKind::Taken, t as int, lo, hi)],
            None => seq![unresolved(source)],
        },
        TransferKind::Call => match last.target {
            Some(t) => seq![
                link(source, EdgeKind::Call, t as int, lo, hi),
                link(source, EdgeKind::Fallthrough, ft, lo, hi),
            ],
            None => seq![unresolved(source), link(source, EdgeKind::Fallthrough, ft, lo, hi)],
        },
        TransferKind::Return => seq![],
    }
}

fn make_link(source: u64, kind: EdgeKind, t: u64, lo: u64, hi: u64) -> (e: Edge)
    ensures
        e == link(source, kind, t as int, lo, hi),
{
    if lo <= t && t < hi {
        Edge { source, kind, target: Some(t) }
    } else {
        Edge { source, kind: EdgeKind::Unresolved, target: None }
    }
}

/// The edges that a block starting at `source` and ending with `last` has.
pub fn outgoing_edges(source: u64, last: Insn, lo: u64, hi: u64) -> (r: Vec<Edge>)
    requires
        last.addr + last.len <= u64::MAX,
    ensures
        r@ == prescribed_edges(source, last, lo, hi),
{
    let ft = last.addr + last.len;
    let mut r: Vec<Edge> = Vec::new();
    match last.kind {
        TransferKind::Plain => {
            r.push(make_link(source, EdgeKind::Fallthrough, ft, lo, hi));
        },
        TransferKind::ConditionalBranch => match last.target {
            Some(t) => {
                r.push(make_link(source, EdgeKind::Taken, t, lo, hi));
                r.push(make_link(source, EdgeKind::NotTaken, ft, lo, hi));
            },
            None => {
                r.push(make_link(source, EdgeKind::NotTaken, ft, lo, hi));
                r.push(Edge { source, kind: EdgeKind::Unresolved, target: None });
            },
        },
        TransferKind::UnconditionalBranch => match last.target {
            Some(t) => {
                r.push(make_link(source, EdgeKind::Taken, t, lo, hi));
            },
            None => {
                r.push(Edge { source, kind: EdgeKind::Unresolved, target: None });
            },
        },
        TransferKind::Call => match last.target {
            Some(t) => {
                r.push(make_link(source, EdgeKind::Call, t, lo, hi));
                r.push(make_link(source, EdgeKind::Fallthrough, ft, lo, hi));
            },
            None => {
                r.push(Edge { source, kind: EdgeKind::Unresolved, target: None });
                r.push(make_link(source, EdgeKind::Fallthrough, ft, lo, hi));
            },
        },
        TransferKind::Return => {},
    }
    assert(r@ =~= prescribed_edges(source, last, lo, hi));
    r
}

/// Instructions placed back to back, each at least one byte long, each ending
/// at or before `hi`.
pub open spec fn contiguous(s: Seq<Insn>, hi: u64) -> bool {
    &&& forall|k: int| 0 <= k < s.len() ==> s[k].len >= 1 && s[k].addr + s[k].len <= hi
    &&& forall|k: int| 0 < k < s.len() ==> #[trigger] follows(s, k)
}

/// The `k`-th instruction starts where the one before it ends.
pub open spec fn follows(s: Seq<Insn>, k: int) -> bool {
    s[k].addr == s[k - 1].addr + s[k - 1].len
}

impl BlockModel {
    /// The edges this block must have.
    pub open spec fn edges_spec(self, lo: u64, hi: u64) -> Seq<Edge> {
        if self.status == BlockStatus::Complete && self.insns.len() > 0 {
            prescribed_edges(self.start, self.insns.last(), lo, hi)
        } else {
            seq![]
        }
    }

    pub open spec fn wf(self, lo: u64, hi: u64) -> bool {
        &&& lo <= self.start <= self.end <= hi
        &&& (self.status == BlockStatus::Complete <==> self.insns.len() > 0)
        &&& self.insns.len() == 0 ==> self.end == self.start
        &&& self.insns.len() > 0 ==> self.insns[0].addr == self.start && self.insns.last().addr
            + self.insns.last().len == self.end
        &&& contiguous(self.insns, hi)
        &&& forall|k: int| 0 <= k < self.insns.len() - 1 ==> #[trigger] self.insns[k].kind
            == TransferKind::Plain
        &&& self.succs == self.edges_spec(lo, hi)
    }

    /// Whether the block holds an instruction at `a` other than its first.
    pub open spec fn splits_at(self, a: u64) -> bool {
        exists|k: int| 0 < k < self.insns.len() && #[trigger] self.insns[k].addr == a
    }
}

/// Blocks ordered by start address, none overlapping the next.
pub open spec fn ordered(bs: Seq<BlockModel>) -> bool {
    forall|i: int|
        0 <= i < bs.len() - 1 ==> #[trigger] bs[i].end <= bs[i + 1].start && bs[i].start < bs[i
            + 1].start
}

/// A control-flow graph: its blocks keyed by start address, each holding its
/// outgoing edges, over the code region `[lo, hi)`.
#[derive(Debug)]
pub struct Cfg {
    pub entry: u64,
    pub lo: u64,
    pub hi: u64,
    pub blocks: Vec<BasicBlock>,
}

impl View for Cfg {
    type V = Seq<BlockModel>;

    open spec fn view(&self) -> Seq<BlockModel> {
        self.blocks@.map_values(|b: BasicBlock| b@)
    }
}

impl Cfg {
    pub open spec fn wf(&self) -> bool {
        &&& self@.len() > 0
        &&& self@[0].start == self.entry
        &&& forall|i: int| 0 <= i < self@.len() ==> (#[trigger] self@[i]).wf(self.lo, self.hi)
        &&& ordered(self@)
    }
}

/// Whether some block of `bs` starts at `a`.
pub open spec fn has_block_at(bs: Seq<BlockModel>, a: u64) -> bool {
    exists|m: int| 0 <= m < bs.len() && bs[m].start == a
}

/// The edges of `es[..k]` that lead to `a`, in order.
pub open spec fn edges_to(es: Seq<Edge>, k: int, a: u64) -> Seq<Edge>
    decreases k,
{
    if k <= 0 {
        seq![]
    } else if es[k - 1].target == Some(a) {
        edges_to(es, k - 1, a).push(es[k - 1])
    } else {
        edges_to(es, k - 1, a)
    }
}

/// The edges of the first `m` blocks of `bs` that lead to `a`, in block order.
pub open spec fn preds_upto(bs: Seq<BlockModel>, m: int, a: u64) -> Seq<Edge>
    decreases m,
{
    if m <= 0 {
        seq![]
    } else {
        preds_upto(bs, m - 1, a) + edges_to(bs[m - 1].succs, bs[m - 1].succs.len() as int, a)
    }
}

/// Copies the instructions `s[from..to]`.
pub(crate) fn copy_range(s: &Vec<Insn>, from: usize, to: usize) -> (r: Vec<Insn>)
    requires
        from <= to <= s@.len(),
    ensures
        r@ == s@.subrange(from as int, to as int),
{
    let mut r: Vec<Insn> = Vec::new();
    let mut k: usize = from;
    while k < to
        invariant
            from <= k <= to <= s@.len(),
            r@ == s@.subrange(from as int, k as int),
        decreases to - k,
    {
        r.push(s[k]);
        k = k + 1;
        assert(r@ =~= s@.subrange(from as int, k as int));
    }
    r
}

impl Cfg {
    /// Address of the entry block.
    pub fn entry(&self) -> (r: u64)
        ensures
            r == self.entry,
    {
        self.entry
    }

    /// All blocks, in address order.
    pub fn blocks(&self) -> (r: &Vec<BasicBlock>)
        ensures
            r@ == self.blocks@,
    {
        &self.blocks
    }

    /// Position of the block starting at `addr`.
    fn find_block(&self, addr: u64) -> (r: Option<usize>)
        ensures
            r is Some <==> has_block_at(self@, addr),
            r matches Some(i) ==> i < self@.len() && self@[i as int].start == addr,
    {
        let mut i: usize = 0;
        while i < self.blocks.len()
            invariant
                i <= self@.len(),
                self@.len() == self.blocks@.len(),
                forall|m: int| 0 <= m < i ==> self@[m].start != addr,
            decreases self@.len() - i,
        {
            if self.blocks[i].start == addr {
                return Some(i);
            }
            i = i + 1;
        }
        None
    }

    /// The block starting at `addr`, if there is one.
    pub fn block_at(&self, addr: u64) -> (r: Option<&BasicBlock>)
        ensures
            r is Some <==> has_block_at(self@, addr),
            r matches Some(b) ==> b.start == addr && exists|i: int| 0 <= i < self@.len() && self@[i] == b@,
    {
        match self.find_block(addr) {
            Some(i) => {
                let b = &self.blocks[i];
                assert(self@[i as int] == b@);
                Some(b)
            },
            None => None,
        }
    }

    /// Outgoing edges of the block starting at `addr`; empty when there is
    /// no such block.
    pub fn successors(&self, addr: u64) -> (r: Vec<Edge>)
        ensures
            has_block_at(self@, addr) ==> exists|i: int| 0 <= i < self@.len() && self@[i].start == addr && r@ == self@[i].succs,
            !has_block_at(self@, addr) ==> r@.len() == 0,
    {
        let mut r: Vec<Edge> = Vec::new();
        if let Some(i) = self.find_block(addr) {
            let es = &self.blocks[i].succs;
            let mut k: usize = 0;
            while k < es.len()
                invariant
                    k <= es@.len(),
                    r@ == es@.subrange(0, k as int),
                decreases es@.len() - k,
            {
                r.push(es[k]);
                k = k + 1;
                assert(r@ =~= es@.subrange(0, k as int));
            }
            assert(es@.subrange(0, k as int) =~= es@);
            assert(self@[i as int].succs == es@);
        }
        r
    }

    /// Edges of all blocks that lead to `addr`, in address order of their
    /// source blocks.
    pub fn predecessors(&self, addr: u64) -> (r: Vec<Edge>)
        ensures
            r@ == preds_upto(self@, self@.len() as int, addr),
    {
        let mut r: Vec<Edge> = Vec::new();
        let mut m: usize = 0;
        while m < self.blocks.len()
            invariant
                m <= self@.len(),
                self@.len() == self.blocks@.len(),
                r@ == preds_upto(self@, m as int, addr),
            decreases self@.len() - m,
        {
            let es = &self.blocks[m].succs;
            assert(self@[m as int].succs == es@);
            let ghost before = r@;
            let mut k: usize = 0;
            while k < es.len()
                invariant
                    k <= es@.len(),
                    r@ == before + edges_to(es@, k as int, addr),
                decreases es@.len() - k,
            {
                if es[k].target == Some(addr) {
                    r.push(es[k]);
                }
                k = k + 1;
                assert(r@ =~= before + edges_to(es@, k as int, addr));
            }
            m = m + 1;
        }
        r
    }
}

/// Instruction addresses of a contiguous run increase with the index.
pub proof fn lemma_contiguous_monotone(s: Seq<Insn>, hi: u64, a: int, b: int)
    requires
        contiguous(s, hi),
        0 <= a <= b < s.len(),
    ensures
        s[a].addr <= s[b].addr,
        a < b ==> s[a].addr < s[b].addr,
    decreases b - a,
{
    if a < b {
        lemma_contiguous_monotone(s, hi, a, b - 1);
        assert(follows(s, b));
    }
}

/// In ordered blocks every block ends before any later one starts.
pub proof fn lemma_ordered_pairwise(bs: Seq<BlockModel>, lo: u64, hi: u64, i: int, j: int)
    requires
        ordered(bs),
        forall|m: int| 0 <= m < bs.len() ==> (#[trigger] bs[m]).wf(lo, hi),
        0 <= i < j < bs.len(),
    ensures
        bs[i].end <= bs[j].start,
        bs[i].start < bs[j].start,
    decreases j - i,
{
    if i + 1 < j {
        lemma_ordered_pairwise(bs, lo, hi, i, j - 1);
        assert(bs[j - 1].start <= bs[j - 1].end);
        assert(bs[j - 1].end <= bs[j].start);
    } else {
        assert(bs[i].end <= bs[i + 1].start);
    }
}

/// An address at which a well-formed block splits lies strictly inside it,
/// and only one instruction of the block starts there.
pub proof fn lemma_split_point(b: BlockModel, lo: u64, hi: u64, a: u64, k: int)
    requires
        b.wf(lo, hi),
        0 < k < b.insns.len(),
        b.insns[k].addr == a,
    ensures
        b.start < a < b.end,
        forall|k2: int| 0 <= k2 < b.insns.len() && #[trigger] b.insns[k2].addr == a ==> k2 == k,
{
    lemma_contiguous_monotone(b.insns, hi, 0, k);
    lemma_contiguous_monotone(b.insns, hi, k, b.insns.len() - 1);
    assert forall|k2: int| 0 <= k2 < b.insns.len() && #[trigger] b.insns[k2].addr == a implies k2 == k by {
        if k2 < k {
            lemma_contiguous_monotone(b.insns, hi, k2, k);
        } else if k2 > k {
            lemma_contiguous_monotone(b.insns, hi, k, k2);
        }
    }
}

/// The part of `b` before its `k`-th instruction.
pub open spec fn head_of(b: BlockModel, k: int, lo: u64, hi: u64) -> BlockModel {
    BlockModel {
        start: b.start,
        end: b.insns[k].addr,
        insns: b.insns.subrange(0, k),
        status: BlockStatus::Complete,
        succs: prescribed_edges(b.start, b.insns[k - 1], lo, hi),
    }
}

/// The part of `b` from its `k`-th instruction on.
pub open spec fn tail_of(b: BlockModel, k: int, lo: u64, hi: u64) -> BlockModel {
    BlockModel {
        start: b.insns[k].addr,
        end: b.end,
        insns: b.insns.subrange(k, b.insns.len() as int),
        status: b.status,
        succs: prescribed_edges(b.insns[k].addr, b.insns.last(), lo, hi),
    }
}

/// Whether some block of `bs` splits at `a`.
pub open spec fn splits(bs: Seq<BlockModel>, a: u64) -> bool {
    exists|i: int| 0 <= i < bs.len() && (#[trigger] bs[i]).splits_at(a)
}

/// The blocks after splitting at `a` the block that holds an instruction
/// there other than its first; unchanged when there is none.
pub open spec fn split_spec(bs: Seq<BlockModel>, a: u64, lo: u64, hi: u64) -> Seq<BlockModel> {
    if splits(bs, a) {
        let i = choose|i: int| 0 <= i < bs.len() && (#[trigger] bs[i]).splits_at(a);
        let k = choose|k: int| 0 < k < bs[i].insns.len() && #[trigger] bs[i].insns[k].addr == a;
        bs.subrange(0, i) + seq![head_of(bs[i], k, lo, hi), tail_of(bs[i], k, lo, hi)] + bs.subrange(
            i + 1,
            bs.len() as int,
        )
    } else {
        bs
    }
}

/// Blocks that are well formed and ordered.
pub open spec fn blocks_wf(bs: Seq<BlockModel>, lo: u64, hi: u64) -> bool {
    &&& forall|m: int| 0 <= m < bs.len() ==> (#[trigger] bs[m]).wf(lo, hi)
    &&& ordered(bs)
}

/// No block splits at the start of a block.
pub proof fn lemma_no_split_at_start(bs: Seq<BlockModel>, lo: u64, hi: u64, j: int)
    requires
        blocks_wf(bs, lo, hi),
        0 <= j < bs.len(),
    ensures
        !splits(bs, bs[j].start),
{
    let a = bs[j].start;
    if splits(bs, a) {
        let i = choose|i: int| 0 <= i < bs.len() && (#[trigger] bs[i]).splits_at(a);
        let k = choose|k: int| 0 < k < bs[i].insns.len() && #[trigger] bs[i].insns[k].addr == a;
        lemma_split_point(bs[i], lo, hi, a, k);
        if i < j {
            lemma_ordered_pairwise(bs, lo, hi, i, j);
        } else if j < i {
            lemma_ordered_pairwise(bs, lo, hi, j, i);
        }
    }
}

/// Splitting keeps the blocks well formed and ordered, and afterwards a
/// block starts at `a`.
pub proof fn lemma_split_wf(bs: Seq<BlockModel>, a: u64, lo: u64, hi: u64)
    requires
        blocks_wf(bs, lo, hi),
    ensures
        blocks_wf(split_spec(bs, a, lo, hi), lo, hi),
        splits(bs, a) ==> split_spec(bs, a, lo, hi).len() == bs.len() + 1,
        splits(bs, a) ==> exists|j: int|
            0 <= j < split_spec(bs, a, lo, hi).len() && #[trigger] split_spec(bs, a, lo, hi)[j].start == a,
{
    if splits(bs, a) {
        let i = choose|i: int| 0 <= i < bs.len() && (#[trigger] bs[i]).splits_at(a);
        let b = bs[i];
        let k = choose|k: int| 0 < k < b.insns.len() && #[trigger] b.insns[k].addr == a;
        lemma_split_point(b, lo, hi, a, k);
        let h = head_of(b, k, lo, hi);
        let t = tail_of(b, k, lo, hi);
        let r = split_spec(bs, a, lo, hi);
        assert(r[i] == h && r[i + 1] == t);
        assert(follows(b.insns, k));
        assert(h.insns.last() == b.insns[k - 1]);
        assert(t.insns.last() == b.insns.last());
        assert(contiguous(h.insns, hi)) by {
            assert forall|m: int| 0 < m < h.insns.len() implies #[trigger] follows(h.insns, m) by {
                assert(follows(b.insns, m));
            }
        }
        assert(contiguous(t.insns, hi)) by {
            assert forall|m: int| 0 < m < t.insns.len() implies #[trigger] follows(t.insns, m) by {
                assert(follows(b.insns, k + m));
            }
        }
        assert forall|m: int| 0 <= m < h.insns.len() - 1 implies #[trigger] h.insns[m].kind == TransferKind::Plain by {
            assert(b.insns[m].kind == TransferKind::Plain);
        }
        assert forall|m: int| 0 <= m < t.insns.len() - 1 implies #[trigger] t.insns[m].kind == TransferKind::Plain by {
            assert(b.insns[k + m].kind == TransferKind::Plain);
        }
        assert(h.insns[k - 1].kind == TransferKind::Plain);
        assert(h.wf(lo, hi));
        assert(t.wf(lo, hi));
        assert forall|m: int| 0 <= m < r.len() implies (#[trigger] r[m]).wf(lo, hi) by {
            if m < i {
                assert(r[m] == bs[m]);
            } else if m > i + 1 {
                assert(r[m] == bs[m - 1]);
            }
        }
        assert forall|m: int| 0 <= m < r.len() - 1 implies #[trigger] r[m].end <= r[m + 1].start
            && r[m].start < r[m + 1].start by {
            if m < i - 1 {
                assert(r[m] == bs[m] && r[m + 1] == bs[m + 1]);
            } else if m == i - 1 {
                assert(r[m] == bs[m]);
                assert(bs[i - 1].end <= bs[i].start && bs[i - 1].start < bs[i].start);
            } else if m == i + 1 {
                assert(r[m + 1] == bs[i + 1]);
                assert(bs[i].end <= bs[i + 1].start && bs[i].start < bs[i + 1].start);
            } else if m > i + 1 {
                assert(r[m] == bs[m - 1] && r[m + 1] == bs[m]);
            }
        }
        assert(r[i + 1].start == a);
    }
}

/// Splitting at the start of a block changes nothing, and splitting twice
/// at the same address gives the same blocks as splitting once.
pub proof fn lemma_split_idempotent(bs: Seq<BlockModel>, a: u64, lo: u64, hi: u64)
    requires
        blocks_wf(bs, lo, hi),
    ensures
        (exists|j: int| 0 <= j < bs.len() && #[trigger] bs[j].start == a) ==> split_spec(bs, a, lo, hi) == bs,
        split_spec(split_spec(bs, a, lo, hi), a, lo, hi) == split_spec(bs, a, lo, hi),
{
    if exists|j: int| 0 <= j < bs.len() && #[trigger] bs[j].start == a {
        let j = choose|j: int| 0 <= j < bs.len() && #[trigger] bs[j].start == a;
        lemma_no_split_at_start(bs, lo, hi, j);
    }
    lemma_split_wf(bs, a, lo, hi);
    let r = split_spec(bs, a, lo, hi);
    if splits(bs, a) {
        let j = choose|j: int| 0 <= j < r.len() && #[trigger] r[j].start == a;
        lemma_no_split_at_start(r, lo, hi, j);
    }
}

impl Cfg {
    /// Splits the block that holds an instruction at `addr` other than its
    /// first: the block keeps the instructions before `addr`, ends with a
    /// fallthrough edge to `addr`, and a new block starting at `addr` takes
    /// the rest and the outgoing edges. Returns whether a block was split.
    pub fn split_at(&mut self, addr: u64) -> (changed: bool)
        requires
            old(self).wf(),
        ensures
            final(self).wf(),
            final(self).entry == old(self).entry,
            final(self).lo == old(self).lo,
            final(self).hi == old(self).hi,
            final(self)@ == split_spec(old(self)@, addr, old(self).lo, old(self).hi),
            changed == splits(old(self)@, addr),
    {
        let lo = self.lo;
        let hi = self.hi;
        let mut i: usize = 0;
        while i < self.blocks.len()
            invariant
                self.wf(),
                lo == self.lo,
                hi == self.hi,
                lo == old(self).lo,
                hi == old(self).hi,
                self.entry == old(self).entry,
                self@ == old(self)@,
                i <= self@.len(),
                self@.len() == self.blocks@.len(),
                forall|m: int| 0 <= m < i ==> !(#[trigger] self@[m]).splits_at(addr),
            decreases self@.len() - i,
        {
            let n = self.blocks[i].insns.len();
            assert(self@[i as int] == self.blocks@[i as int]@);
            let mut k: usize = 1;
            while k < n
                invariant
                    self.wf(),
                    lo == self.lo,
                    hi == self.hi,
                    lo == old(self).lo,
                    hi == old(self).hi,
                    self.entry == old(self).entry,
                    self@ == old(self)@,
                    i < self@.len(),
                    self@.len() == self.blocks@.len(),
                    n == self@[i as int].insns.len(),
                    1 <= k,
                    forall|kk: int| 0 < kk < k && kk < n ==> (#[trigger] self@[i as int].insns[kk]).addr != addr,
                decreases n - k,
            {
                if self.blocks[i].insns[k].addr == addr {
                    proof {
                        assert(self@[i as int].insns[k as int] == self.blocks@[i as int].insns@[k as int]);
                    }
                    self.split_block(i, k, addr);
                    return true;
                }
                k = k + 1;
            }
            i = i + 1;
        }
        false
    }
}

impl Cfg {
    /// Splits block `i` before its `k`-th instruction, which starts at `addr`.
    #[verifier::spinoff_prover]
    #[verifier::rlimit(40)]
    fn split_block(&mut self, i: usize, k: usize, addr: u64)
        requires
            old(self).wf(),
            i < old(self)@.len(),
            0 < k < old(self)@[i as int].insns.len(),
            old(self)@[i as int].insns[k as int].addr == addr,
        ensures
            final(self).wf(),
            final(self).entry == old(self).entry,
            final(self).lo == old(self).lo,
            final(self).hi == old(self).hi,
            final(self)@ == split_spec(old(self)@, addr, old(self).lo, old(self).hi),
            splits(old(self)@, addr),
    {
        let lo = self.lo;
        let hi = self.hi;
        let nb = self.blocks.len();
        let ghost bs = self@;
        let ghost old_blocks = self.blocks@;
        proof {
            assert(bs[i as int] == self.blocks@[i as int]@);
        }
        let n = self.blocks[i].insns.len();
        let last = self.blocks[i].insns[n - 1];
        let prev = self.blocks[i].insns[k - 1];
        let start = self.blocks[i].start;
        let end = self.blocks[i].end;
        let status = self.blocks[i].status;
        proof {
            assert(bs[i as int].wf(lo, hi));
            assert(prev.addr + prev.len <= hi);
            assert(last.addr + last.len <= hi);
        }
        let head = BasicBlock {
            start,
            end: addr,
            insns: copy_range(&self.blocks[i].insns, 0, k),
            status: BlockStatus::Complete,
            succs: outgoing_edges(start, prev, lo, hi),
        };
        let tail = BasicBlock {
            start: addr,
            end,
            insns: copy_range(&self.blocks[i].insns, k, n),
            status,
            succs: outgoing_edges(addr, last, lo, hi),
        };
        proof {
            assert(head@.insns =~= bs[i as int].insns.subrange(0, k as int));
            assert(tail@.insns =~= bs[i as int].insns.subrange(k as int, n as int));
            assert(head@ == head_of(bs[i as int], k as int, lo, hi));
            assert(tail@ == tail_of(bs[i as int], k as int, lo, hi));
        }
        let ghost h = head@;
        let ghost t = tail@;
        self.blocks.set(i, head);
        self.blocks.insert(i + 1, tail);
        proof {
            lemma_view_after_split(old_blocks, self.blocks@, i as int, h, t);
            lemma_split_choice(bs, addr, lo, hi, i as int, k as int);
            lemma_split_wf(bs, addr, lo, hi);
        }
    }
}

/// Replacing block `i` by two blocks replaces its view by their views.
proof fn lemma_view_after_split(
    old_blocks: Seq<BasicBlock>,
    new_blocks: Seq<BasicBlock>,
    i: int,
    h: BlockModel,
    t: BlockModel,
)
    requires
        0 <= i < old_blocks.len(),
        new_blocks.len() == old_blocks.len() + 1,
        new_blocks[i]@ == h,
        new_blocks[i + 1]@ == t,
        forall|m: int| 0 <= m < i ==> new_blocks[m] == old_blocks[m],
        forall|m: int| i + 1 < m < new_blocks.len() ==> new_blocks[m] == old_blocks[m - 1],
    ensures
        new_blocks.map_values(|b: BasicBlock| b@) == old_blocks.map_values(|b: BasicBlock| b@).subrange(0, i)
            + seq![h, t] + old_blocks.map_values(|b: BasicBlock| b@).subrange(i + 1, old_blocks.len() as int),
{
    let ov = old_blocks.map_values(|b: BasicBlock| b@);
    let nv = new_blocks.map_values(|b: BasicBlock| b@);
    assert(nv =~= ov.subrange(0, i) + seq![h, t] + ov.subrange(i + 1, old_blocks.len() as int));
}

/// When block `i` splits at `a` at its `k`-th instruction, that block and
/// that instruction are the ones the split chooses.
proof fn lemma_split_choice(bs: Seq<BlockModel>, a: u64, lo: u64, hi: u64, i: int, k: int)
    requires
        blocks_wf(bs, lo, hi),
        0 <= i < bs.len(),
        0 < k < bs[i].insns.len(),
        bs[i].insns[k].addr == a,
    ensures
        splits(bs, a),
        split_spec(bs, a, lo, hi) == bs.subrange(0, i) + seq![head_of(bs[i], k, lo, hi), tail_of(bs[i], k, lo, hi)]
            + bs.subrange(i + 1, bs.len() as int),
{
    assert(bs[i].splits_at(a));
    let i2 = choose|i2: int| 0 <= i2 < bs.len() && (#[trigger] bs[i2]).splits_at(a);
    let k2 = choose|k2: int| 0 < k2 < bs[i2].insns.len() && #[trigger] bs[i2].insns[k2].addr == a;
    lemma_split_point(bs[i], lo, hi, a, k);
    lemma_split_point(bs[i2], lo, hi, a, k2);
    if i < i2 {
        lemma_ordered_pairwise(bs, lo, hi, i, i2);
    } else if i2 < i {
        lemma_ordered_pairwise(bs, lo, hi, i2, i);
    }
    assert(i == i2);
    assert(k == k2);
}

/// Edge completeness: every block of a well-formed graph that was closed
/// normally has exactly the edges its terminator prescribes, and a block
/// closed by a decode failure has none; in particular a conditional branch
/// with a static target has exactly two edges, taken and not taken.
pub proof fn lemma_edge_completeness(g: Cfg, m: int)
    requires
        g.wf(),
        0 <= m < g@.len(),
    ensures
        g@[m].status == BlockStatus::Complete ==> g@[m].succs == prescribed_edges(
            g@[m].start,
            g@[m].insns.last(),
            g.lo,
            g.hi,
        ),
        g@[m].status != BlockStatus::Complete ==> g@[m].succs.len() == 0,
        (g@[m].status == BlockStatus::Complete && g@[m].insns.last().kind
            == TransferKind::ConditionalBranch && g@[m].insns.last().target is Some) ==> {
            &&& g@[m].succs.len() == 2
            &&& (g@[m].succs[0].kind == EdgeKind::Taken || g@[m].succs[0].kind == EdgeKind::Unresolved)
            &&& (g@[m].succs[1].kind == EdgeKind::NotTaken || g@[m].succs[1].kind == EdgeKind::Unresolved)
        },
{
    assert(g@[m].wf(g.lo, g.hi));
}

} // verus!
