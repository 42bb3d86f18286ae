use xgadget::arch::Architecture;
use xgadget::decode::{classify, decode_kind};
use xgadget::insn::{category, InstrCategory, InstrKind};
use xgadget::region::{EngineError, ExecutableRegion, SearchConfig};
use xgadget::reloc::{plt_stub_address, reloc_name_x64, reloc_name_x86};
use xgadget::search::search_binary;

fn region(base: u64, bytes: &[u8]) -> ExecutableRegion {
    ExecutableRegion { base_address: base, bytes: bytes.to_vec() }
}

#[test]
fn decode_single_byte_forms() {
    let b = vec![0xc3, 0x58, 0x5f, 0x50, 0x90, 0xc9];
    assert_eq!(decode_kind(&Architecture::X64, &b, 0), (InstrKind::Ret, 1));
    assert_eq!(decode_kind(&Architecture::X64, &b, 1), (InstrKind::PopReg(0), 1));
    assert_eq!(decode_kind(&Architecture::X64, &b, 2), (InstrKind::PopReg(7), 1));
    assert_eq!(decode_kind(&Architecture::X64, &b, 3), (InstrKind::PushReg(0), 1));
    assert_eq!(decode_kind(&Architecture::X64, &b, 4), (InstrKind::Nop, 1));
    assert_eq!(decode_kind(&Architecture::X64, &b, 5), (InstrKind::Leave, 1));
}

#[test]
fn decode_immediate_forms() {
    let b = vec![0xc2, 0x37, 0x13];
    assert_eq!(decode_kind(&Architecture::X64, &b, 0), (InstrKind::RetImm(0x1337), 3));

    let b = vec![0xb8, 0x78, 0x56, 0x34, 0x12];
    assert_eq!(
        decode_kind(&Architecture::X64, &b, 0),
        (InstrKind::MovRegImm(0, 0x12345678), 5)
    );

    let b = vec![0xe8, 0x01, 0x00, 0x00, 0x00];
    assert_eq!(decode_kind(&Architecture::X64, &b, 0), (InstrKind::CallRel(1), 5));

    let b = vec![0xeb, 0x05];
    assert_eq!(decode_kind(&Architecture::X64, &b, 0), (InstrKind::JmpRelShort(5), 2));
}

#[test]
fn decode_conditional_branches() {
    let b = vec![0x75, 0x10];
    assert_eq!(decode_kind(&Architecture::X64, &b, 0), (InstrKind::JccShort(5, 0x10), 2));

    let b = vec![0x0f, 0x85, 0xf0, 0x01, 0x00, 0x00];
    assert_eq!(decode_kind(&Architecture::X64, &b, 0), (InstrKind::Jcc(5, 0x1f0), 6));
    assert!(matches!(category(&InstrKind::Jcc(5, 0x1f0)), InstrCategory::ConditionalBranch));
}

#[test]
fn decode_indirect_forms() {
    let b = vec![0xff, 0xd3]; // call rbx
    assert_eq!(decode_kind(&Architecture::X64, &b, 0), (InstrKind::CallReg(3), 2));
    let b = vec![0xff, 0x13]; // call [rbx]
    assert_eq!(decode_kind(&Architecture::X64, &b, 0), (InstrKind::CallMem(3), 2));
    let b = vec![0xff, 0xe1]; // jmp rcx
    assert_eq!(decode_kind(&Architecture::X64, &b, 0), (InstrKind::JmpReg(1), 2));
    let b = vec![0xff, 0x21]; // jmp [rcx]
    assert_eq!(decode_kind(&Architecture::X64, &b, 0), (InstrKind::JmpMem(1), 2));
}

#[test]
fn decode_rex_forms() {
    let b = vec![0x41, 0x5c]; // pop r12
    assert_eq!(decode_kind(&Architecture::X64, &b, 0), (InstrKind::PopReg(12), 2));

    let b = vec![0x48, 0xc7, 0xc0, 0x37, 0x13, 0x00, 0x00]; // mov rax, 0x1337
    assert_eq!(
        decode_kind(&Architecture::X64, &b, 0),
        (InstrKind::MovRegImmWide(0, 0x1337), 7)
    );

    let b = vec![0x48, 0x8d, 0x05, 0xe1, 0xdd, 0x05, 0x00]; // lea rax, [rip+0x5dde1]
    assert_eq!(
        decode_kind(&Architecture::X64, &b, 0),
        (InstrKind::LeaRipRel(0, 0x5dde1), 7)
    );
}

#[test]
fn same_bytes_decode_differently_per_architecture() {
    let b = vec![0x48, 0xc7, 0xc0, 0x37, 0x13, 0x00, 0x00];
    // 64-bit mode: REX.W prefix; 32-bit mode: dec eax
    assert_eq!(
        decode_kind(&Architecture::X64, &b, 0),
        (InstrKind::MovRegImmWide(0, 0x1337), 7)
    );
    assert_eq!(decode_kind(&Architecture::X86, &b, 0), (InstrKind::DecReg(0), 1));
    let b2 = vec![0x41, 0x5c];
    assert_eq!(decode_kind(&Architecture::X86, &b2, 0), (InstrKind::IncReg(1), 1));
}

#[test]
fn truncated_encodings_are_invalid_of_length_one() {
    let b = vec![0xc2, 0x37]; // ret imm16 cut short
    assert_eq!(decode_kind(&Architecture::X64, &b, 0), (InstrKind::Invalid, 1));
    let b = vec![0xe8, 0x01]; // call rel32 cut short
    assert_eq!(decode_kind(&Architecture::X64, &b, 0), (InstrKind::Invalid, 1));
    let b = vec![0x05]; // unrecognized opcode
    assert_eq!(decode_kind(&Architecture::X64, &b, 0), (InstrKind::Invalid, 1));
}

#[test]
fn classify_carries_address_and_raw_bytes() {
    let b = vec![0x58, 0xc2, 0x37, 0x13];
    let ins = classify(&Architecture::X64, &b, 1, 0x7000);
    assert_eq!(ins.address, 0x7001);
    assert_eq!(ins.kind, InstrKind::RetImm(0x1337));
    assert_eq!(ins.bytes, vec![0xc2, 0x37, 0x13]);
}

#[test]
fn configuration_errors_are_reported_up_front() {
    let cfg = SearchConfig::default();
    let ok_regions = vec![region(0, &[0xc3])];

    let r = search_binary(1, &Architecture::Unknown, &ok_regions, &cfg);
    assert_eq!(r.unwrap_err(), EngineError::UnknownArchitecture);

    let mut bad_cfg = SearchConfig::default();
    bad_cfg.max_gadget_bytes = 0;
    let r = search_binary(1, &Architecture::X64, &ok_regions, &bad_cfg);
    assert_eq!(r.unwrap_err(), EngineError::BadSearchWindow);

    let r = search_binary(1, &Architecture::X64, &vec![region(0, &[])], &cfg);
    assert_eq!(r.unwrap_err(), EngineError::EmptyRegion);

    let r = search_binary(1, &Architecture::X64, &vec![region(u64::MAX, &[0xc3, 0xc3])], &cfg);
    assert_eq!(r.unwrap_err(), EngineError::RegionAddressOverflow);

    // a later bad region does not hide an earlier good one being fine,
    // but does fail the run for this binary
    let r = search_binary(1, &Architecture::X64, &vec![region(0, &[0xc3]), region(0, &[])], &cfg);
    assert_eq!(r.unwrap_err(), EngineError::EmptyRegion);
}

#[test]
fn terminator_categories_are_configurable() {
    let bytes = vec![0xe8, 0x01, 0x00, 0x00, 0x00]; // call rel32 only
    let cfg = SearchConfig::default();
    let set = search_binary(1, &Architecture::X64, &vec![region(0, &bytes)], &cfg).unwrap();
    assert_eq!(set.len(), 0); // direct calls are not terminators by default

    let mut ext = SearchConfig::default();
    ext.term_direct_call = true;
    let set = search_binary(1, &Architecture::X64, &vec![region(0, &bytes)], &ext).unwrap();
    assert_eq!(set.len(), 1);
}

#[test]
fn reloc_type_names() {
    assert_eq!(reloc_name_x64(0), Some("R_X86_64_NONE"));
    assert_eq!(reloc_name_x64(7), Some("R_X86_64_JUMP_SLOT"));
    assert_eq!(reloc_name_x64(37), Some("R_X86_64_IRELATIVE"));
    assert_eq!(reloc_name_x64(27), None);
    assert_eq!(reloc_name_x64(9999), None);

    assert_eq!(reloc_name_x86(7), Some("R_386_JMP_SLOT"));
    assert_eq!(reloc_name_x86(38), Some("R_386_SIZE32"));
    assert_eq!(reloc_name_x86(42), Some("R_386_IRELATIVE"));
    assert_eq!(reloc_name_x86(12), None);
}

#[test]
fn plt_stub_addresses() {
    assert_eq!(plt_stub_address(0x1000, 0), Some(0x1010));
    assert_eq!(plt_stub_address(0x1000, 2), Some(0x1030));
    assert_eq!(plt_stub_address(u64::MAX - 8, 0), None);
    assert_eq!(plt_stub_address(0, u64::MAX / 16), None);
}
