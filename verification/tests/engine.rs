use xgadget::arch::Architecture;
use xgadget::builder::build_gadget;
use xgadget::gadget::{Gadget, GadgetSet};
use xgadget::insn::{InstrCategory, InstrKind};
use xgadget::region::{ExecutableRegion, SearchConfig};
use xgadget::search::{find_anchors, search_binary};

fn region(base: u64, bytes: &[u8]) -> ExecutableRegion {
    ExecutableRegion { base_address: base, bytes: bytes.to_vec() }
}

fn kinds(g: &Gadget) -> Vec<InstrKind> {
    g.instructions.iter().map(|i| i.kind).collect()
}

fn find_by_kinds<'a>(set: &'a GadgetSet, want: &[InstrKind]) -> Option<&'a Gadget> {
    set.entries.iter().find(|g| kinds(g) == want)
}

// `pop rax; pop rbx; ret` immediately followed by `mov rax, 0x1337; jmp [rax]`
const POP_POP_RET_MOV_JMP: &[u8] = &[
    0x58, // pop rax
    0x5b, // pop rbx
    0xc3, // ret
    0x48, 0xc7, 0xc0, 0x37, 0x13, 0x00, 0x00, // mov rax, 0x1337
    0xff, 0x20, // jmp [rax]
];

#[test]
fn twelve_byte_scenario_yields_ret_and_jmp_gadgets() {
    let regions = vec![region(0, POP_POP_RET_MOV_JMP)];
    let cfg = SearchConfig::default();
    let set = search_binary(1, &Architecture::X64, &regions, &cfg).unwrap();

    let ret3 = find_by_kinds(
        &set,
        &[InstrKind::PopReg(0), InstrKind::PopReg(3), InstrKind::Ret],
    )
    .expect("three-instruction ret gadget");
    assert_eq!(ret3.instr_count(), 3);
    assert_eq!(ret3.first_address(), 0);
    assert!(matches!(
        xgadget::insn::category(&ret3.instructions.last().unwrap().kind),
        InstrCategory::Return
    ));

    let jmp2 = find_by_kinds(
        &set,
        &[InstrKind::MovRegImmWide(0, 0x1337), InstrKind::JmpMem(0)],
    )
    .expect("two-instruction indirect-jump gadget");
    assert_eq!(jmp2.instructions.len(), 2);
    assert_eq!(jmp2.first_address(), 3);
    assert!(matches!(
        xgadget::insn::category(&jmp2.instructions.last().unwrap().kind),
        InstrCategory::IndirectJump
    ));

    // no gadget spans both control transfers
    for g in &set.entries {
        let ks = kinds(g);
        let has_ret = ks.contains(&InstrKind::Ret);
        let has_jmp = ks.contains(&InstrKind::JmpMem(0));
        assert!(!(has_ret && has_jmp));
    }

    // exactly the five distinct straight-line gadgets of this buffer
    assert_eq!(set.len(), 5);
    assert!(find_by_kinds(&set, &[InstrKind::PopReg(3), InstrKind::Ret]).is_some());
    assert!(find_by_kinds(&set, &[InstrKind::Ret]).is_some());
    assert!(find_by_kinds(&set, &[InstrKind::JmpMem(0)]).is_some());
}

// two independent decode paths into two adjacent terminators
const ADJACENT_RET: &[u8] = &[
    0x48, 0x8d, 0x05, 0xe1, 0xdd, 0x05, 0x00, // lea rax, [rip+0x5dde1]
    0xc3, // ret
    0x48, 0x8d, 0x05, 0xcb, 0xdd, 0x05, 0x00, // lea rax, [rip+0x5ddcb]
    0xc2, 0x37, 0x13, // ret 0x1337
];

#[test]
fn adjacent_ret_paths_reported_as_distinct_gadgets() {
    let regions = vec![region(0x100, ADJACENT_RET)];
    let cfg = SearchConfig::default();
    let set = search_binary(1, &Architecture::X64, &regions, &cfg).unwrap();

    let g1 = find_by_kinds(&set, &[InstrKind::LeaRipRel(0, 0x5dde1), InstrKind::Ret])
        .expect("first lea/ret gadget");
    assert_eq!(g1.first_address(), 0x100);

    let g2 = find_by_kinds(
        &set,
        &[InstrKind::LeaRipRel(0, 0x5ddcb), InstrKind::RetImm(0x1337)],
    )
    .expect("second lea/ret-imm gadget");
    assert_eq!(g2.first_address(), 0x108);

    assert_eq!(set.len(), 4); // the two above plus the two bare returns
}

#[test]
fn search_is_deterministic_across_runs() {
    let regions = vec![region(0x400000, ADJACENT_RET), region(0x500000, POP_POP_RET_MOV_JMP)];
    let cfg = SearchConfig::default();
    let s1 = search_binary(9, &Architecture::X64, &regions, &cfg).unwrap();
    let s2 = search_binary(9, &Architecture::X64, &regions, &cfg).unwrap();

    assert_eq!(s1.len(), s2.len());
    for (a, b) in s1.entries.iter().zip(s2.entries.iter()) {
        assert_eq!(kinds(a), kinds(b));
        assert_eq!(a.first_address(), b.first_address());
        assert_eq!(a.occurs_in.len(), b.occurs_in.len());
        for (pa, pb) in a.occurs_in.iter().zip(b.occurs_in.iter()) {
            assert_eq!(pa.0, pb.0);
            assert_eq!(pa.1, pb.1);
        }
    }
}

#[test]
fn anchors_are_exactly_the_terminator_offsets() {
    let bytes: Vec<u8> = POP_POP_RET_MOV_JMP.to_vec();
    let cfg = SearchConfig::default();
    let anchors = find_anchors(&Architecture::X64, &bytes, &cfg);
    assert_eq!(anchors, vec![2, 10]);
}

#[test]
fn builder_rejects_overshoot_and_internal_terminator() {
    let r = region(0, POP_POP_RET_MOV_JMP);
    let cfg = SearchConfig::default();

    // landing exactly on the anchor from the start of the buffer
    let g = build_gadget(&Architecture::X64, &r, 0, 2, &cfg).expect("pop pop ret");
    assert_eq!(g.instructions.len(), 3);
    assert_eq!(g.byte_length(), 3);

    // a candidate crossing the ret on its way to the jmp is discarded
    assert!(build_gadget(&Architecture::X64, &r, 0, 10, &cfg).is_none());

    // a candidate starting mid-immediate is discarded (invalid encoding)
    assert!(build_gadget(&Architecture::X64, &r, 4, 10, &cfg).is_none());

    // a bare terminator is a valid one-instruction gadget
    let lone = build_gadget(&Architecture::X64, &r, 10, 10, &cfg).expect("bare jmp");
    assert_eq!(lone.instructions.len(), 1);
    assert_eq!(lone.first_address(), 10);
}

#[test]
fn internal_branches_allowed_when_policy_permits() {
    let r = region(0, POP_POP_RET_MOV_JMP);
    let mut cfg = SearchConfig::default();
    cfg.allow_internal_branches = true;
    // the same candidate crossing the ret now succeeds
    let g = build_gadget(&Architecture::X64, &r, 0, 10, &cfg).expect("multi-branch gadget");
    assert_eq!(g.instructions.len(), 5);
    assert_eq!(g.byte_length(), 12);
}

#[test]
fn gadgets_found_in_several_regions_merge_occurrences() {
    let regions = vec![region(0x1000, &[0x58, 0xc3]), region(0x2000, &[0x58, 0xc3])];
    let cfg = SearchConfig::default();
    let set = search_binary(5, &Architecture::X64, &regions, &cfg).unwrap();
    let g = find_by_kinds(&set, &[InstrKind::PopReg(0), InstrKind::Ret]).unwrap();
    assert_eq!(g.occurs_in.len(), 1);
    assert_eq!(g.occurs_in[0].0, 5);
    let mut addrs = g.occurs_in[0].1.clone();
    addrs.sort();
    assert_eq!(addrs, vec![0x1000, 0x2000]);
}

// tail of a function epilogue: six pops (four REX-prefixed) and a ret
const EPILOGUE: &[u8] = &[
    0x5b, // pop rbx
    0x5d, // pop rbp
    0x41, 0x5c, // pop r12
    0x41, 0x5d, // pop r13
    0x41, 0x5e, // pop r14
    0x41, 0x5f, // pop r15
    0xc3, // ret
];

#[test]
fn epilogue_pop_chain_found_in_full() {
    let regions = vec![region(0xa000, EPILOGUE)];
    let cfg = SearchConfig::default();
    let set = search_binary(2, &Architecture::X64, &regions, &cfg).unwrap();
    let g = find_by_kinds(
        &set,
        &[
            InstrKind::PopReg(3),
            InstrKind::PopReg(5),
            InstrKind::PopReg(12),
            InstrKind::PopReg(13),
            InstrKind::PopReg(14),
            InstrKind::PopReg(15),
            InstrKind::Ret,
        ],
    )
    .expect("full epilogue gadget");
    assert_eq!(g.first_address(), 0xa000);
    assert_eq!(g.byte_length(), 11);
    // an offset inside the first REX pair starts a different, equally
    // valid decode path: 0x5c alone is pop rsp
    let adj = find_by_kinds(
        &set,
        &[
            InstrKind::PopReg(4),
            InstrKind::PopReg(13),
            InstrKind::PopReg(14),
            InstrKind::PopReg(15),
            InstrKind::Ret,
        ],
    )
    .expect("mid-encoding decode path");
    assert_eq!(adj.first_address(), 0xa003);
}

#[test]
fn thirty_two_bit_mode_search() {
    // inc eax; pop ebx; ret -- 0x40 is inc, not a REX prefix, in 32-bit mode
    let bytes = vec![0x40, 0x5b, 0xc3];
    let cfg = SearchConfig::default();
    let set = search_binary(3, &Architecture::X86, &vec![region(0, &bytes)], &cfg).unwrap();
    assert!(find_by_kinds(
        &set,
        &[InstrKind::IncReg(0), InstrKind::PopReg(3), InstrKind::Ret]
    )
    .is_some());
    assert_eq!(set.len(), 3);
}

#[test]
fn window_bounds_the_backward_search() {
    // forty single-byte pops before a ret; the default window is 32 bytes,
    // so the longest reported gadget is 32 pops plus the terminator
    let mut bytes = vec![0x58u8; 40];
    bytes.push(0xc3);
    let cfg = SearchConfig::default();
    let set = search_binary(1, &Architecture::X64, &vec![region(0, &bytes)], &cfg).unwrap();
    let longest = set.entries.iter().map(|g| g.instructions.len()).max().unwrap();
    assert_eq!(longest, 33);
    // a longer gadget is silently omitted, not mis-reported: every entry
    // still ends in the one terminator
    for g in &set.entries {
        assert!(matches!(g.instructions.last().unwrap().kind, InstrKind::Ret));
    }
}
