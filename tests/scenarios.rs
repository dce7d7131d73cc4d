use cfg_recover::builder::CfgBuilder;
use cfg_recover::cfg::{BlockStatus, Edge, EdgeKind};
use cfg_recover::driver::analyze_program;
use cfg_recover::error::{Error, Kind};
use cfg_recover::insn::{DecodeError, TransferKind};

const BASE: u64 = 0x1000;

fn builder(code: &[u8]) -> CfgBuilder {
    CfgBuilder::build(code.to_vec(), 64, BASE)
}

fn edge(source: u64, kind: EdgeKind, target: Option<u64>) -> Edge {
    Edge { source, kind, target }
}

fn starts(b: &CfgBuilder, entry: u64) -> Vec<(u64, u64)> {
    let g = b.build_cfg(entry).unwrap();
    g.blocks().iter().map(|blk| (blk.start, blk.end)).collect()
}

#[test]
fn straight_line_is_one_block() {
    // push rbp; pop rbp; ret
    let b = builder(&[0x55, 0x5d, 0xc3]);
    let g = b.build_cfg(BASE).unwrap();
    assert_eq!(g.entry(), BASE);
    assert_eq!(g.blocks().len(), 1);
    let blk = &g.blocks()[0];
    assert_eq!(blk.start, BASE);
    assert_eq!(blk.end, BASE + 3);
    assert_eq!(blk.insns.len(), 3);
    assert_eq!(blk.insns[2].kind, TransferKind::Return);
    assert_eq!(blk.status, BlockStatus::Complete);
    assert!(g.successors(BASE).is_empty());
}

#[test]
fn diamond_gives_four_blocks() {
    // cmp rbx,rax; je L2; nop; jmp L3; L2: nop; L3: ret
    let b = builder(&[0x48, 0x39, 0xc3, 0x74, 0x03, 0x90, 0xeb, 0x01, 0x90, 0xc3]);
    let g = b.build_cfg(BASE).unwrap();
    let bounds: Vec<(u64, u64)> = g.blocks().iter().map(|blk| (blk.start, blk.end)).collect();
    assert_eq!(bounds, vec![(0x1000, 0x1005), (0x1005, 0x1008), (0x1008, 0x1009), (0x1009, 0x100a)]);
    assert_eq!(
        g.successors(0x1000),
        vec![edge(0x1000, EdgeKind::Taken, Some(0x1008)), edge(0x1000, EdgeKind::NotTaken, Some(0x1005))]
    );
    assert_eq!(g.successors(0x1005), vec![edge(0x1005, EdgeKind::Taken, Some(0x1009))]);
    assert_eq!(g.successors(0x1008), vec![edge(0x1008, EdgeKind::Fallthrough, Some(0x1009))]);
    assert!(g.successors(0x1009).is_empty());
    assert_eq!(
        g.predecessors(0x1009),
        vec![edge(0x1005, EdgeKind::Taken, Some(0x1009)), edge(0x1008, EdgeKind::Fallthrough, Some(0x1009))]
    );
}

#[test]
fn backward_loop_splits_entry_block() {
    // nop; nop; L: dec ecx; jne L; ret
    let b = builder(&[0x90, 0x90, 0xff, 0xc9, 0x75, 0xfc, 0xc3]);
    let g = b.build_cfg(BASE).unwrap();
    let bounds: Vec<(u64, u64)> = g.blocks().iter().map(|blk| (blk.start, blk.end)).collect();
    assert_eq!(bounds, vec![(0x1000, 0x1002), (0x1002, 0x1006), (0x1006, 0x1007)]);
    assert_eq!(g.successors(0x1000), vec![edge(0x1000, EdgeKind::Fallthrough, Some(0x1002))]);
    assert_eq!(
        g.successors(0x1002),
        vec![edge(0x1002, EdgeKind::Taken, Some(0x1002)), edge(0x1002, EdgeKind::NotTaken, Some(0x1006))]
    );
    assert_eq!(
        g.predecessors(0x1002),
        vec![edge(0x1000, EdgeKind::Fallthrough, Some(0x1002)), edge(0x1002, EdgeKind::Taken, Some(0x1002))]
    );
    assert!(g.block_at(0x1001).is_none());
}

#[test]
fn indirect_call_is_unresolved() {
    // call rax; ret
    let b = builder(&[0xff, 0xd0, 0xc3]);
    let g = b.build_cfg(BASE).unwrap();
    assert_eq!(
        g.successors(BASE),
        vec![edge(BASE, EdgeKind::Unresolved, None), edge(BASE, EdgeKind::Fallthrough, Some(0x1002))]
    );
    let table = analyze_program(&b, BASE);
    assert_eq!(table.len(), 1);
    assert_eq!(table[0].entry, BASE);
}

#[test]
fn truncated_tail_ends_in_truncated_block() {
    // nop; then the first two bytes of a five-byte call
    let b = builder(&[0x90, 0xe8, 0x00]);
    assert!(!b.region.can_decode(0x1001));
    let g = b.build_cfg(BASE).unwrap();
    assert_eq!(g.blocks().len(), 2);
    assert_eq!(g.blocks()[0].status, BlockStatus::Complete);
    assert_eq!(g.successors(BASE), vec![edge(BASE, EdgeKind::Fallthrough, Some(0x1001))]);
    let last = g.block_at(0x1001).unwrap();
    assert_eq!(last.status, BlockStatus::Truncated);
    assert!(last.insns.is_empty());
    assert!(g.successors(0x1001).is_empty());
}

#[test]
fn invalid_opcode_ends_in_invalid_block() {
    // nop; push es (not encodable in 64-bit mode)
    let b = builder(&[0x90, 0x06, 0x90]);
    let g = b.build_cfg(BASE).unwrap();
    assert_eq!(g.block_at(0x1001).unwrap().status, BlockStatus::Invalid);
    assert_eq!(b.region.decode_at(0x1001), Err(DecodeError::Invalid));
    assert!(b.region.can_decode(0x1001));
}

#[test]
fn decode_reports_length_and_target() {
    // jmp +3
    let b = builder(&[0xeb, 0x03, 0x90]);
    let i = b.region.decode_at(BASE).unwrap();
    assert_eq!(i.len, 2);
    assert_eq!(i.kind, TransferKind::UnconditionalBranch);
    assert_eq!(i.target, Some(0x1005));
    assert!(b.region.can_decode(0x1002));
    assert!(!b.region.can_decode(0x1003));
    assert_eq!(b.region.decode_at(0x0fff), Err(DecodeError::Truncated));
}

#[test]
fn branch_outside_region_is_unresolved() {
    // jmp +0x10 leaves the three-byte buffer
    let b = builder(&[0xeb, 0x10, 0xc3]);
    let g = b.build_cfg(BASE).unwrap();
    assert_eq!(g.successors(BASE), vec![edge(BASE, EdgeKind::Unresolved, None)]);
    assert_eq!(g.blocks().len(), 1);
}

#[test]
fn entry_outside_region_is_an_error() {
    let b = builder(&[0xc3]);
    let e = b.build_cfg(0x2000).unwrap_err();
    assert_eq!(e.kind, Kind::OutOfRange);
    let table = analyze_program(&b, 0x2000);
    assert_eq!(table.len(), 1);
    let err = table[0].result.as_ref().unwrap_err();
    assert_eq!(err.kind, Kind::OutOfRange);
    assert!(err.causes.is_empty());
}

#[test]
fn driver_visits_recursive_calls_once() {
    // f: call g; ret   g: call f; ret
    let b = builder(&[0xe8, 0x01, 0x00, 0x00, 0x00, 0xc3, 0xe8, 0xf5, 0xff, 0xff, 0xff, 0xc3]);
    let table = analyze_program(&b, BASE);
    let entries: Vec<u64> = table.iter().map(|f| f.entry).collect();
    assert_eq!(entries, vec![0x1000, 0x1006]);
    let g = table[1].result.as_ref().unwrap();
    assert_eq!(
        g.successors(0x1006),
        vec![edge(0x1006, EdgeKind::Call, Some(0x1000)), edge(0x1006, EdgeKind::Fallthrough, Some(0x100b))]
    );
}

#[test]
fn pipeline_is_deterministic() {
    let code = [0x48, 0x39, 0xc3, 0x74, 0x03, 0x90, 0xeb, 0x01, 0x90, 0xc3];
    let b = builder(&code);
    assert_eq!(starts(&b, BASE), starts(&b, BASE));
    let g1 = b.build_cfg(BASE).unwrap();
    let g2 = b.build_cfg(BASE).unwrap();
    for blk in g1.blocks() {
        assert_eq!(g1.successors(blk.start), g2.successors(blk.start));
    }
}

#[test]
fn error_chain_is_searched_in_order() {
    let e = Error::new(Kind::Bad).with(Error::new(Kind::Truncated).with(Error::new(Kind::Invalid)));
    assert_eq!(e.description(), "bad");
    assert_eq!(e.causes, vec![Kind::Truncated, Kind::Invalid]);
    assert_eq!(e.find_source(Kind::Invalid), Some(1));
    assert_eq!(e.find_source(Kind::OutOfRange), None);
    assert_eq!(Error::new(Kind::OutOfRange).description(), "address out of range");
}

#[test]
fn split_moves_tail_and_edges() {
    // cmp rbx,rax; je L2; nop; jmp L3; L2: nop; L3: ret
    let b = builder(&[0x48, 0x39, 0xc3, 0x74, 0x03, 0x90, 0xeb, 0x01, 0x90, 0xc3]);
    let mut g = b.build_cfg(BASE).unwrap();
    assert!(g.split_at(0x1003));
    let bounds: Vec<(u64, u64)> = g.blocks().iter().map(|blk| (blk.start, blk.end)).collect();
    assert_eq!(bounds, vec![(0x1000, 0x1003), (0x1003, 0x1005), (0x1005, 0x1008), (0x1008, 0x1009), (0x1009, 0x100a)]);
    assert_eq!(g.successors(0x1000), vec![edge(0x1000, EdgeKind::Fallthrough, Some(0x1003))]);
    assert_eq!(
        g.successors(0x1003),
        vec![edge(0x1003, EdgeKind::Taken, Some(0x1008)), edge(0x1003, EdgeKind::NotTaken, Some(0x1005))]
    );
    assert_eq!(g.block_at(0x1000).unwrap().insns.len(), 1);
    assert_eq!(g.block_at(0x1003).unwrap().insns.len(), 1);
}

#[test]
fn split_is_idempotent() {
    let b = builder(&[0x48, 0x39, 0xc3, 0x74, 0x03, 0x90, 0xeb, 0x01, 0x90, 0xc3]);
    let mut g = b.build_cfg(BASE).unwrap();
    assert!(!g.split_at(0x1000));
    assert_eq!(g.blocks().len(), 4);
    assert!(!g.split_at(0x1001));
    assert!(g.split_at(0x1003));
    let once: Vec<(u64, u64)> = g.blocks().iter().map(|blk| (blk.start, blk.end)).collect();
    assert!(!g.split_at(0x1003));
    let twice: Vec<(u64, u64)> = g.blocks().iter().map(|blk| (blk.start, blk.end)).collect();
    assert_eq!(once, twice);
    assert_eq!(g.successors(0x1003).len(), 2);
}

#[test]
fn driver_lists_direct_callees() {
    // f: call g; ret   g: ret
    let b = builder(&[0xe8, 0x01, 0x00, 0x00, 0x00, 0xc3, 0xc3]);
    let table = analyze_program(&b, BASE);
    let entries: Vec<u64> = table.iter().map(|f| f.entry).collect();
    assert_eq!(entries, vec![0x1000, 0x1006]);
    let g = table[0].result.as_ref().unwrap();
    assert_eq!(
        g.successors(BASE),
        vec![edge(BASE, EdgeKind::Call, Some(0x1006)), edge(BASE, EdgeKind::Fallthrough, Some(0x1005))]
    );
}
