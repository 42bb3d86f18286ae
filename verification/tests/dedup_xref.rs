use xgadget::arch::Architecture;
use xgadget::builder::build_gadget;
use xgadget::gadget::{Gadget, GadgetSet};
use xgadget::insn::InstrKind;
use xgadget::region::{EngineError, ExecutableRegion, SearchConfig};
use xgadget::search::search_binary;
use xgadget::xref::{cross_reference_full, cross_reference_partial, MatchKind};

fn region(base: u64, bytes: &[u8]) -> ExecutableRegion {
    ExecutableRegion { base_address: base, bytes: bytes.to_vec() }
}

fn kinds(g: &Gadget) -> Vec<InstrKind> {
    g.instructions.iter().map(|i| i.kind).collect()
}

fn find_by_kinds<'a>(set: &'a GadgetSet, want: &[InstrKind]) -> Option<&'a Gadget> {
    set.entries.iter().find(|g| kinds(g) == want)
}

fn pop_ret_gadget(base: u64) -> Gadget {
    let r = region(base, &[0x58, 0xc3]);
    build_gadget(&Architecture::X64, &r, 0, 1, &SearchConfig::default()).unwrap()
}

#[test]
fn merge_same_occurrence_twice_does_not_duplicate() {
    let mut set = GadgetSet::new();
    set.insert_occurrence(pop_ret_gadget(0x40), 7);
    set.insert_occurrence(pop_ret_gadget(0x40), 7);
    assert_eq!(set.len(), 1);
    let g = set.get(0);
    assert_eq!(g.occurs_in.len(), 1);
    assert_eq!(g.occurs_in[0].0, 7);
    assert_eq!(g.occurs_in[0].1, vec![0x40]);
}

#[test]
fn merge_same_key_at_new_address_adds_address_not_entry() {
    let mut set = GadgetSet::new();
    set.insert_occurrence(pop_ret_gadget(0x40), 7);
    set.insert_occurrence(pop_ret_gadget(0x90), 7);
    assert_eq!(set.len(), 1);
    let g = set.get(0);
    assert_eq!(g.occurs_in.len(), 1);
    let mut addrs = g.occurs_in[0].1.clone();
    addrs.sort();
    assert_eq!(addrs, vec![0x40, 0x90]);

    // a second binary gets its own address group, still one entry
    set.insert_occurrence(pop_ret_gadget(0x1000), 8);
    assert_eq!(set.len(), 1);
    assert_eq!(set.get(0).occurs_in.len(), 2);
}

#[test]
fn cross_reference_three_binaries() {
    let cfg = SearchConfig::default();
    // the pop/ret gadget exists in binaries 1 and 2, only the bare ret in 3
    let a = search_binary(1, &Architecture::X64, &vec![region(0x10, &[0x58, 0xc3])], &cfg)
        .unwrap();
    let b = search_binary(2, &Architecture::X64, &vec![region(0x20, &[0x58, 0xc3])], &cfg)
        .unwrap();
    let c = search_binary(3, &Architecture::X64, &vec![region(0x30, &[0xc3])], &cfg).unwrap();
    let sets = vec![a, b, c];

    let full = cross_reference_full(&sets).unwrap();
    assert!(matches!(full.kind, MatchKind::Full));
    assert_eq!(full.set.len(), 1);
    assert!(find_by_kinds(&full.set, &[InstrKind::PopReg(0), InstrKind::Ret]).is_none());
    let ret = find_by_kinds(&full.set, &[InstrKind::Ret]).expect("ret in every binary");
    let mut bins: Vec<u64> = ret.occurs_in.iter().map(|p| p.0).collect();
    bins.sort();
    assert_eq!(bins, vec![1, 2, 3]);
    // the merged addresses come from every binary
    let mut all_addrs: Vec<u64> = ret.occurs_in.iter().flat_map(|p| p.1.clone()).collect();
    all_addrs.sort();
    assert_eq!(all_addrs, vec![0x11, 0x21, 0x30]);

    let part = cross_reference_partial(&sets).unwrap();
    assert!(matches!(part.kind, MatchKind::Partial));
    assert_eq!(part.set.len(), 1);
    let g = find_by_kinds(&part.set, &[InstrKind::PopReg(0), InstrKind::Ret])
        .expect("pop/ret is a partial match");
    let mut bins: Vec<u64> = g.occurs_in.iter().map(|p| p.0).collect();
    bins.sort();
    assert_eq!(bins, vec![1, 2]); // exactly the binaries that contain it
}

#[test]
fn cross_reference_rejects_empty_query() {
    let sets: Vec<GadgetSet> = Vec::new();
    assert_eq!(cross_reference_full(&sets).unwrap_err(), EngineError::NoBinaries);
    assert_eq!(cross_reference_partial(&sets).unwrap_err(), EngineError::NoBinaries);
}

#[test]
fn full_match_of_one_binary_is_the_binary_itself() {
    let cfg = SearchConfig::default();
    let a = search_binary(4, &Architecture::X64, &vec![region(0, &[0x58, 0xc3])], &cfg)
        .unwrap();
    let n = a.len();
    let full = cross_reference_full(&vec![a]).unwrap();
    assert_eq!(full.set.len(), n);
}
