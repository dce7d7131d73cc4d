use vstd::prelude::*;
use vstd::set_lib::{lemma_int_range, lemma_len_subset, set_int_range};
use crate::builder::{built_from, CfgBuilder};
use crate::cfg::{BlockModel, Cfg, EdgeKind};
use crate::error::{Error, Kind};

verus! {

/// One function of the table: its entry address and its graph, or the
/// error that kept it from being built.
#[derive(Debug)]
pub struct FunctionEntry {
    pub entry: u64,
    pub result: Result<Cfg, Error>,
}

/// Whether a block of `bs` has a call edge to `t`.
pub open spec fn calls(bs: Seq<BlockModel>, t: u64) -> bool {
    exists|m: int, e: int|
        0 <= m < bs.len() && 0 <= e < bs[m].succs.len() && #[trigger] bs[m].succs[e].kind
            == EdgeKind::Call && bs[m].succs[e].target == Some(t)
}

/// Whether the graph stored for `f` has a call edge to `a`.
pub open spec fn entry_calls(f: FunctionEntry, a: u64) -> bool {
    f.result matches Ok(g) && calls(g@, a)
}

/// The graph stored for an entry of the table is the one built from it.
pub open spec fn entry_built(builder: CfgBuilder, f: FunctionEntry) -> bool {
    match f.result {
        Ok(g) => {
            &&& g.wf()
            &&& g.entry == f.entry
            &&& g.lo == builder.region.base
            &&& g.hi == builder.region.limit()
            &&& built_from(builder.region, f.entry, g@)
        },
        Err(e) => !builder.region.contains(f.entry as int) && e.kind == Kind::OutOfRange && e.causes@.len()
            == 0,
    }
}

/// The table of functions: every entry is listed once, the root first, and
/// every call target of a listed function is listed too.
pub open spec fn table_closed(t: Seq<FunctionEntry>) -> bool {
    forall|k: int, a: u64|
        0 <= k < t.len() && #[trigger] entry_calls(t[k], a)
            ==> exists|j: int| 0 <= j < t.len() && t[j].entry == a
}

/// Every entry but the first is the target of a call edge in the graph of
/// an earlier entry among the first `idx`, or, when it comes after the
/// `idx`-th, in the graph `g` being scanned.
pub open spec fn found_by(t: Seq<FunctionEntry>, idx: int, order: Seq<u64>, g: Seq<BlockModel>) -> bool {
    forall|k: int| 1 <= k < order.len() ==> #[trigger] found_one(t, idx, order, g, k)
}

/// The `k`-th entry is called from an earlier entry among the first `idx`,
/// or comes after the `idx`-th and is called from the graph `g`.
pub open spec fn found_one(t: Seq<FunctionEntry>, idx: int, order: Seq<u64>, g: Seq<BlockModel>, k: int) -> bool {
    (exists|j: int| 0 <= j < idx && j < k && #[trigger] entry_calls(t[j], order[k])) || (idx < k && calls(
        g,
        order[k],
    ))
}

/// Every entry of the table but the first is called from an entry listed
/// before it; so the table is the least call-closed set holding the root.
pub open spec fn table_reached(t: Seq<FunctionEntry>) -> bool {
    forall|k: int| 1 <= k < t.len() ==> called_before(t, k, (#[trigger] t[k]).entry)
}

/// Whether one of the first `k` functions of the table has a call edge to `a`.
pub open spec fn called_before(t: Seq<FunctionEntry>, k: int, a: u64) -> bool {
    exists|j: int| 0 <= j < k && #[trigger] entry_calls(t[j], a)
}

pub open spec fn entries_distinct(t: Seq<FunctionEntry>) -> bool {
    forall|i: int, j: int| 0 <= i < j < t.len() ==> t[i].entry != t[j].entry
}

/// The worklist `order` of discovered entries, the visited bitmap over the
/// buffer's offsets, and the ghost set of those offsets agree; no entry is
/// discovered twice.
pub open spec fn worklist_ok(
    builder: CfgBuilder,
    root: u64,
    visited: Seq<bool>,
    seen: Set<int>,
    order: Seq<u64>,
) -> bool {
    let lo = builder.region.base;
    let n = builder.region.code@.len() as int;
    &&& visited.len() == n
    &&& forall|p: int| 0 <= p < n ==> (visited[p] <==> seen.contains(p))
    &&& seen.finite()
    &&& seen.subset_of(set_int_range(0, n))
    &&& set_int_range(0, n).finite()
    &&& set_int_range(0, n).len() == n
    &&& seen.len() == order.len()
    &&& order.len() >= 1
    &&& order[0] == root
    &&& forall|k: int|
        0 <= k < order.len() ==> builder.region.contains(#[trigger] order[k] as int)
            && seen.contains(order[k] - lo)
    &&& forall|p: int| seen.contains(p) ==> order.contains((p + lo) as u64)
    &&& forall|i: int, j: int| 0 <= i < j < order.len() ==> order[i] != order[j]
}

/// The first `idx` entries of `order` have been built into `table`, and
/// their call targets have all been discovered.
pub open spec fn table_ok(builder: CfgBuilder, order: Seq<u64>, table: Seq<FunctionEntry>, idx: int) -> bool {
    &&& idx <= order.len()
    &&& table.len() == idx
    &&& forall|k: int|
        0 <= k < idx ==> (#[trigger] table[k]).entry == order[k] && entry_built(builder, table[k])
    &&& forall|k: int, a: u64|
        0 <= k < idx && #[trigger] entry_calls(table[k], a) ==> order.contains(a)
}

/// Builds the graph of `root` and of every function reachable from it by
/// direct calls, each exactly once.
#[verifier::spinoff_prover]
#[verifier::rlimit(30)]
pub fn analyze_program(builder: &CfgBuilder, root: u64) -> (table: Vec<FunctionEntry>)
    requires
        builder.wf(),
    ensures
        table@.len() >= 1,
        table@[0].entry == root,
        entries_distinct(table@),
        forall|k: int| 0 <= k < table@.len() ==> entry_built(*builder, #[trigger] table@[k]),
        table_closed(table@),
        table_reached(table@),
{
    let lo = builder.region.base;
    let n = builder.region.code.len();
    let mut table: Vec<FunctionEntry> = Vec::new();
    if root < lo || root - lo >= n as u64 {
        table.push(FunctionEntry { entry: root, result: Err(Error::new(Kind::OutOfRange)) });
        return table;
    }
    let mut visited: Vec<bool> = Vec::new();
    let mut o: usize = 0;
    while o < n
        invariant
            o <= n,
            visited@.len() == o,
            forall|p: int| 0 <= p < o ==> !visited@[p],
        decreases n - o,
    {
        visited.push(false);
        o = o + 1;
    }
    let mut order: Vec<u64> = Vec::new();
    let ghost mut seen: Set<int> = Set::empty();
    visited.set((root - lo) as usize, true);
    order.push(root);
    proof {
        seen = seen.insert(root - lo);
        lemma_int_range(0, n as int);
        assert(order@[0] == root);
        assert forall|p: int| seen.contains(p) implies order@.contains((p + lo) as u64) by {
            assert(order@[0] == (p + lo) as u64);
        }
        assert(found_by(table@, 0, order@, seq![])) by {
        }
    }
    let mut idx: usize = 0;
    while idx < order.len()
        invariant
            builder.wf(),
            lo == builder.region.base,
            n == builder.region.code@.len(),
            worklist_ok(*builder, root, visited@, seen, order@),
            table_ok(*builder, order@, table@, idx as int),
            found_by(table@, idx as int, order@, seq![]),
        decreases n - idx,
    {
        proof {
            lemma_len_subset(seen, set_int_range(0, n as int));
        }
        let a = order[idx];
        let g = match builder.build_cfg(a) {
            Ok(g) => g,
            Err(e) => {
                proof {
                    assert(builder.region.contains(order@[idx as int] as int));
                }
                return table;
            },
        };
        proof {
            assert forall|k: int| 1 <= k < order@.len() implies #[trigger] found_one(
                table@,
                idx as int,
                order@,
                g@,
                k,
            ) by {
                assert(found_one(table@, idx as int, order@, seq![], k));
                assert(!calls(seq![], order@[k]));
            }
        }
        let mut m: usize = 0;
        while m < g.blocks.len()
            invariant
                builder.wf(),
                lo == builder.region.base,
                n == builder.region.code@.len(),
                g.wf(),
                g.lo == lo,
                g.hi == builder.region.limit(),
                worklist_ok(*builder, root, visited@, seen, order@),
                table_ok(*builder, order@, table@, idx as int),
                idx < order@.len(),
                order@[idx as int] == a,
                found_by(table@, idx as int, order@, g@),
                m <= g@.len(),
                forall|mm: int, e: int|
                    0 <= mm < m && 0 <= e < g@[mm].succs.len() && #[trigger] g@[mm].succs[e].kind
                        == EdgeKind::Call && g@[mm].succs[e].target is Some ==> order@.contains(
                        g@[mm].succs[e].target->0,
                    ),
            decreases g@.len() - m,
        {
            let es = &g.blocks[m].succs;
            assert(g@[m as int].succs == es@);
            let mut e: usize = 0;
            while e < es.len()
                invariant
                    builder.wf(),
                    lo == builder.region.base,
                    n == builder.region.code@.len(),
                    g.wf(),
                    g.lo == lo,
                    g.hi == builder.region.limit(),
                    m < g@.len(),
                    g@[m as int].succs == es@,
                    worklist_ok(*builder, root, visited@, seen, order@),
                    table_ok(*builder, order@, table@, idx as int),
                    idx < order@.len(),
                    order@[idx as int] == a,
                    found_by(table@, idx as int, order@, g@),
                    e <= es@.len(),
                    forall|mm: int, ee: int|
                        0 <= mm < m && 0 <= ee < g@[mm].succs.len() && #[trigger] g@[mm].succs[ee].kind
                            == EdgeKind::Call && g@[mm].succs[ee].target is Some ==> order@.contains(
                            g@[mm].succs[ee].target->0,
                        ),
                    forall|ee: int|
                        0 <= ee < e && #[trigger] es@[ee].kind == EdgeKind::Call && es@[ee].target
                            is Some ==> order@.contains(es@[ee].target->0),
                decreases es@.len() - e,
            {
                let edge = es[e];
                if edge.kind == EdgeKind::Call {
                    if let Some(t) = edge.target {
                        proof {
                            lemma_call_in_range(g@[m as int], g.lo, g.hi, e as int);
                        }
                        let off = (t - lo) as usize;
                        if !visited[off] {
                            let ghost old_order = order@;
                            let ghost old_seen = seen;
                            visited.set(off, true);
                            order.push(t);
                            proof {
                                seen = seen.insert(off as int);
                                lemma_discover(*builder, root, visited@, old_seen, old_order, t, table@, idx as int);
                                assert(calls(g@, t)) by {
                                    assert(g@[m as int].succs[e as int] == es@[e as int]);
                                }
                                lemma_found_push(table@, idx as int, old_order, t, g@);
                            }
                        } else {
                            proof {
                                assert(seen.contains(off as int));
                                assert(order@.contains((off + lo) as u64));
                            }
                        }
                    }
                }
                e = e + 1;
            }
            m = m + 1;
        }
        let ghost old_table = table@;
        let ghost gv = g@;
        table.push(FunctionEntry { entry: a, result: Ok(g) });
        proof {
            lemma_record(*builder, order@, old_table, table@, idx as int, gv);
        }
        idx = idx + 1;
    }
    proof {
        assert forall|i: int, j: int| 0 <= i < j < table@.len() implies table@[i].entry != table@[j].entry by {
            assert(table@[i].entry == order@[i]);
            assert(table@[j].entry == order@[j]);
        }
        assert forall|k: int, x: u64|
            0 <= k < table@.len() && #[trigger] entry_calls(table@[k], x)
                implies exists|j: int| 0 <= j < table@.len() && table@[j].entry == x by {
            let w = choose|w: int| 0 <= w < order@.len() && order@[w] == x;
            assert(table@[w].entry == x);
        }
        assert forall|k: int| 1 <= k < table@.len() implies called_before(table@, k, (#[trigger] table@[k]).entry) by {
            assert(table@[k].entry == order@[k]);
            assert(found_one(table@, idx as int, order@, seq![], k));
            assert(!calls(seq![], order@[k]));
        }
    }
    table
}

/// Recording the graph `g` of the `idx`-th entry, whose call targets have
/// all been discovered, extends the table invariants to `idx + 1`.
proof fn lemma_record(
    builder: CfgBuilder,
    order: Seq<u64>,
    old_table: Seq<FunctionEntry>,
    table: Seq<FunctionEntry>,
    idx: int,
    gv: Seq<BlockModel>,
)
    requires
        table_ok(builder, order, old_table, idx),
        found_by(old_table, idx, order, gv),
        idx < order.len(),
        table.len() == idx + 1,
        table == old_table.push(table[idx]),
        table[idx].entry == order[idx],
        entry_built(builder, table[idx]),
        table[idx].result matches Ok(g) && g@ == gv,
        forall|mm: int, e: int|
            0 <= mm < gv.len() && 0 <= e < gv[mm].succs.len() && #[trigger] gv[mm].succs[e].kind
                == EdgeKind::Call && gv[mm].succs[e].target is Some ==> order.contains(gv[mm].succs[e].target->0),
    ensures
        table_ok(builder, order, table, idx + 1),
        found_by(table, idx + 1, order, seq![]),
{
    assert forall|k: int, x: u64| 0 <= k < idx + 1 && #[trigger] entry_calls(table[k], x) implies order.contains(x) by {
        if k < idx {
            assert(table[k] == old_table[k]);
        } else {
            let (mm, ee) = choose|mm: int, ee: int|
                0 <= mm < gv.len() && 0 <= ee < gv[mm].succs.len() && #[trigger] gv[mm].succs[ee].kind
                    == EdgeKind::Call && gv[mm].succs[ee].target == Some(x);
        }
    }
    assert forall|k: int| 0 <= k < idx + 1 implies (#[trigger] table[k]).entry == order[k]
        && entry_built(builder, table[k]) by {
        if k < idx {
            assert(table[k] == old_table[k]);
        }
    }
    assert forall|k: int| 1 <= k < order.len() implies #[trigger] found_one(table, idx + 1, order, seq![], k) by {
        lemma_found_one(old_table, table, idx, order, gv, k);
    }
}

/// Appending an entry called from the graph being scanned keeps `found_by`.
proof fn lemma_found_push(t: Seq<FunctionEntry>, idx: int, order: Seq<u64>, a: u64, gv: Seq<BlockModel>)
    requires
        found_by(t, idx, order, gv),
        calls(gv, a),
        idx < order.len(),
    ensures
        found_by(t, idx, order.push(a), gv),
{
    let o2 = order.push(a);
    assert forall|k: int| 1 <= k < o2.len() implies #[trigger] found_one(t, idx, o2, gv, k) by {
        if k < order.len() {
            assert(found_one(t, idx, order, gv, k));
            assert(o2[k] == order[k]);
        } else {
            assert(o2[k] == a);
        }
    }
}

/// After recording the scanned graph as the `idx`-th entry, the `k`-th
/// entry is still called from an earlier one.
proof fn lemma_found_one(
    old_table: Seq<FunctionEntry>,
    table: Seq<FunctionEntry>,
    idx: int,
    order: Seq<u64>,
    gv: Seq<BlockModel>,
    k: int,
)
    requires
        found_by(old_table, idx, order, gv),
        old_table.len() == idx,
        table == old_table.push(table[idx]),
        table.len() == idx + 1,
        table[idx].result matches Ok(g) && g@ == gv,
        1 <= k < order.len(),
    ensures
        exists|j: int| 0 <= j < idx + 1 && j < k && #[trigger] entry_calls(table[j], order[k]),
{
    assert(found_one(old_table, idx, order, gv, k));
    if exists|j: int| 0 <= j < idx && j < k && #[trigger] entry_calls(old_table[j], order[k]) {
        let j = choose|j: int| 0 <= j < idx && j < k && #[trigger] entry_calls(old_table[j], order[k]);
        assert(table[j] == old_table[j]);
        assert(entry_calls(table[j], order[k]));
    } else {
        assert(idx < k && calls(gv, order[k]));
        assert(entry_calls(table[idx], order[k]));
    }
}

/// Discovering a new entry `t` extends the worklist and keeps it consistent.
proof fn lemma_discover(
    builder: CfgBuilder,
    root: u64,
    visited: Seq<bool>,
    seen: Set<int>,
    order: Seq<u64>,
    t: u64,
    table: Seq<FunctionEntry>,
    idx: int,
)
    requires
        worklist_ok(builder, root, visited.update(t - builder.region.base, false), seen, order),
        table_ok(builder, order, table, idx),
        builder.region.contains(t as int),
        visited.len() == builder.region.code@.len(),
        visited[t - builder.region.base],
        !seen.contains(t - builder.region.base),
    ensures
        worklist_ok(builder, root, visited, seen.insert(t - builder.region.base), order.push(t)),
        table_ok(builder, order.push(t), table, idx),
        order.push(t).contains(t),
        forall|x: u64| order.contains(x) ==> order.push(t).contains(x),
{
    let lo = builder.region.base;
    let n = builder.region.code@.len() as int;
    let s2 = seen.insert(t - lo);
    let o2 = order.push(t);
    let old_visited = visited.update(t - lo, false);
    assert forall|p: int| 0 <= p < n implies (visited[p] <==> s2.contains(p)) by {
        if p != t - lo {
            assert(visited[p] == old_visited[p]);
        }
    }
    lemma_len_subset(s2, set_int_range(0, n));
    assert forall|k: int| 0 <= k < o2.len() implies builder.region.contains(#[trigger] o2[k] as int)
        && s2.contains(o2[k] - lo) by {
        if k < order.len() {
            assert(o2[k] == order[k]);
        }
    }
    assert forall|x: u64| order.contains(x) implies o2.contains(x) by {
        let w = choose|w: int| 0 <= w < order.len() && order[w] == x;
        assert(o2[w] == x);
    }
    assert(o2[o2.len() - 1] == t);
    assert forall|p: int| s2.contains(p) implies o2.contains((p + lo) as u64) by {
        if p != t - lo {
            assert(order.contains((p + lo) as u64));
        }
    }
    assert forall|i: int, j: int| 0 <= i < j < o2.len() implies o2[i] != o2[j] by {
        if j == order.len() {
            assert(seen.contains(order[i] - lo));
        } else {
            assert(o2[i] == order[i] && o2[j] == order[j]);
        }
    }
    assert forall|k: int| 0 <= k < idx implies (#[trigger] table[k]).entry == o2[k] && entry_built(builder, table[k]) by {
        assert(o2[k] == order[k]);
    }
}

/// A call edge of a well-formed block leads into the block's region.
proof fn lemma_call_in_range(b: BlockModel, lo: u64, hi: u64, e: int)
    requires
        b.wf(lo, hi),
        0 <= e < b.succs.len(),
        b.succs[e].kind == EdgeKind::Call,
    ensures
        b.succs[e].target matches Some(t) && lo <= t < hi,
{
}

} // verus!
