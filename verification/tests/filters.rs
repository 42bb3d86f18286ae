use xgadget::arch::Architecture;
use xgadget::filter::{check_all_rules, filter_set, FilterRule};
use xgadget::gadget::{Gadget, GadgetSet};
use xgadget::insn::InstrKind;
use xgadget::region::{ExecutableRegion, SearchConfig};
use xgadget::search::search_binary;

fn region(base: u64, bytes: &[u8]) -> ExecutableRegion {
    ExecutableRegion { base_address: base, bytes: bytes.to_vec() }
}

fn kinds(g: &Gadget) -> Vec<InstrKind> {
    g.instructions.iter().map(|i| i.kind).collect()
}

const MIXED: &[u8] = &[
    0x58, // pop rax
    0x5b, // pop rbx
    0xc3, // ret
    0x48, 0xc7, 0xc0, 0x37, 0x13, 0x00, 0x00, // mov rax, 0x1337 (contains 0x00 bytes)
    0xff, 0x20, // jmp [rax]
    0x5c, // pop rsp
    0xc3, // ret
];

fn search_mixed() -> GadgetSet {
    let cfg = SearchConfig::default();
    search_binary(1, &Architecture::X64, &vec![region(0, MIXED)], &cfg).unwrap()
}

#[test]
fn length_and_bad_byte_filters_commute() {
    let r1 = vec![FilterRule::MaxInstrs(3)];
    let r2 = vec![FilterRule::BadBytes(vec![0x00])];

    let ab = filter_set(filter_set(search_mixed(), &r1), &r2);
    let ba = filter_set(filter_set(search_mixed(), &r2), &r1);

    assert_eq!(ab.len(), ba.len());
    for (x, y) in ab.entries.iter().zip(ba.entries.iter()) {
        assert_eq!(kinds(x), kinds(y));
        assert_eq!(x.first_address(), y.first_address());
    }
}

#[test]
fn bad_byte_filter_drops_gadgets_with_forbidden_bytes() {
    let out = filter_set(search_mixed(), &vec![FilterRule::BadBytes(vec![0x00])]);
    for g in &out.entries {
        assert!(!kinds(g).contains(&InstrKind::MovRegImmWide(0, 0x1337)));
        for ins in &g.instructions {
            assert!(!ins.bytes.contains(&0x00));
        }
    }
    // gadgets without NUL bytes survive
    assert!(out.entries.iter().any(|g| kinds(g) == [InstrKind::PopReg(0), InstrKind::PopReg(3), InstrKind::Ret]));
}

#[test]
fn instruction_count_bounds() {
    let set = search_mixed();
    let only_short = filter_set(set, &vec![FilterRule::MaxInstrs(1)]);
    for g in &only_short.entries {
        assert_eq!(g.instructions.len(), 1);
    }
    let set = search_mixed();
    let at_least_two = filter_set(set, &vec![FilterRule::MinInstrs(2)]);
    for g in &at_least_two.entries {
        assert!(g.instructions.len() >= 2);
    }
}

#[test]
fn byte_length_bounds() {
    let set = search_mixed();
    let out = filter_set(set, &vec![FilterRule::MinBytes(4), FilterRule::MaxBytes(9)]);
    for g in &out.entries {
        let total: u32 = g.byte_length();
        assert!(4 <= total && total <= 9);
    }
}

#[test]
fn stack_pivot_policy() {
    let set = search_mixed();
    let pivots = filter_set(set, &vec![FilterRule::OnlyStackPivot]);
    assert!(pivots.entries.iter().any(|g| kinds(g) == [InstrKind::PopReg(4), InstrKind::Ret]));
    for g in &pivots.entries {
        assert!(g.instructions.iter().any(|i| matches!(i.kind, InstrKind::PopReg(4))));
    }

    let set = search_mixed();
    let no_pivots = filter_set(set, &vec![FilterRule::ExcludeStackPivot]);
    for g in &no_pivots.entries {
        assert!(!g.instructions.iter().any(|i| matches!(i.kind, InstrKind::PopReg(4))));
    }
}

#[test]
fn empty_rule_chain_keeps_everything() {
    let set = search_mixed();
    let n = set.len();
    let rules: Vec<FilterRule> = Vec::new();
    let out = filter_set(set, &rules);
    assert_eq!(out.len(), n);
}

#[test]
fn rule_chain_has_and_semantics() {
    let set = search_mixed();
    let rules = vec![FilterRule::MinInstrs(2), FilterRule::MaxInstrs(2)];
    for g in &set.entries {
        let pass = check_all_rules(g, &rules);
        assert_eq!(pass, g.instructions.len() == 2);
    }
    let out = filter_set(set, &rules);
    for g in &out.entries {
        assert_eq!(g.instructions.len(), 2);
    }
}

#[test]
fn esp_arithmetic_counts_as_stack_pivot_in_32_bit_mode() {
    // inc esp; ret -- 0x44 is inc esp in 32-bit mode
    let bytes = vec![0x44, 0xc3];
    let cfg = SearchConfig::default();
    let set =
        search_binary(1, &Architecture::X86, &vec![region(0, &bytes)], &cfg).unwrap();
    assert_eq!(set.len(), 2);

    let set2 =
        search_binary(1, &Architecture::X86, &vec![region(0, &bytes)], &cfg).unwrap();
    let pivots = filter_set(set, &vec![FilterRule::OnlyStackPivot]);
    assert_eq!(pivots.len(), 1);
    assert_eq!(kinds(&pivots.entries[0]), [InstrKind::IncReg(4), InstrKind::Ret]);

    let no_pivots = filter_set(set2, &vec![FilterRule::ExcludeStackPivot]);
    assert_eq!(no_pivots.len(), 1);
    assert_eq!(kinds(&no_pivots.entries[0]), [InstrKind::Ret]);
}
