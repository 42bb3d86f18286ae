//! The search: anchor enumeration over a region, candidate construction,
//! and the per-binary gadget set.
//!
//! The result is characterized exactly: a canonical key is in the produced
//! set if and only if some candidate `(start, anchor)` of some region
//! yields it, and the recorded occurrence addresses are exactly the
//! starting addresses of the yielding candidates. Worker scheduling or
//! traversal order can therefore never change the outcome.

use vstd::prelude::*;

use crate::arch::Architecture;
use crate::builder::{
    build_gadget, instrs_decode_in, spec_anchor_ok, spec_builds, spec_gadget_kinds,
};
use crate::decode::decode_kind;
use crate::gadget::GadgetSet;
use crate::insn::InstrKind;
use crate::region::{is_terminator, is_terminator_kind, EngineError, ExecutableRegion, SearchConfig};

verus! {

/// Some candidate ending at anchor `a` yields key `k`.
pub open spec fn anchor_yields(
    arch: Architecture,
    b: Seq<u8>,
    cfg: SearchConfig,
    k: Seq<InstrKind>,
    a: int,
) -> bool {
    exists|s: int| spec_builds(arch, b, s, a, cfg) && spec_gadget_kinds(arch, b, s, a) == k
}

/// Some candidate ending at anchor `a`, with a start offset below `s_lim`,
/// yields key `k`.
pub open spec fn anchor_yields_upto(
    arch: Architecture,
    b: Seq<u8>,
    cfg: SearchConfig,
    k: Seq<InstrKind>,
    a: int,
    s_lim: int,
) -> bool {
    exists|s: int|
        s < s_lim && spec_builds(arch, b, s, a, cfg) && spec_gadget_kinds(arch, b, s, a) == k
}

/// Some candidate ending at anchor `a`, with a start offset below `s_lim`,
/// yields key `k` starting at address `ad`.
pub open spec fn anchor_yields_addr_upto(
    arch: Architecture,
    b: Seq<u8>,
    cfg: SearchConfig,
    k: Seq<InstrKind>,
    a: int,
    s_lim: int,
    base: u64,
    ad: u64,
) -> bool {
    exists|s: int|
        s < s_lim && spec_builds(arch, b, s, a, cfg) && spec_gadget_kinds(arch, b, s, a) == k && ad
            == base + s
}

/// Some candidate of the region yields key `k`.
pub open spec fn region_yields(
    arch: Architecture,
    b: Seq<u8>,
    cfg: SearchConfig,
    k: Seq<InstrKind>,
) -> bool {
    exists|a: int| #[trigger] anchor_yields(arch, b, cfg, k, a)
}

/// Some candidate of the region yields key `k` starting at address `ad`.
pub open spec fn region_yields_addr(
    arch: Architecture,
    b: Seq<u8>,
    cfg: SearchConfig,
    k: Seq<InstrKind>,
    base: u64,
    ad: u64,
) -> bool {
    exists|a: int| #[trigger] anchor_yields_addr_upto(arch, b, cfg, k, a, b.len() as int, base, ad)
}

/// Some candidate with an anchor below `a_lim` yields key `k`.
pub open spec fn region_yields_upto(
    arch: Architecture,
    b: Seq<u8>,
    cfg: SearchConfig,
    k: Seq<InstrKind>,
    a_lim: int,
) -> bool {
    exists|a: int| a < a_lim && #[trigger] anchor_yields(arch, b, cfg, k, a)
}

/// Some candidate with an anchor below `a_lim` yields key `k` starting at
/// address `ad`.
pub open spec fn region_yields_addr_upto(
    arch: Architecture,
    b: Seq<u8>,
    cfg: SearchConfig,
    k: Seq<InstrKind>,
    a_lim: int,
    base: u64,
    ad: u64,
) -> bool {
    exists|a: int|
        a < a_lim && #[trigger] anchor_yields_addr_upto(arch, b, cfg, k, a, b.len() as int, base, ad)
}

/// A nonempty instruction run decoded out of the region `(b, base)`, ending
/// in a terminator: what every entry a search produced looks like.
pub open spec fn from_region(
    instrs: Seq<crate::insn::Instruction>,
    arch: Architecture,
    b: Seq<u8>,
    base: u64,
    cfg: SearchConfig,
) -> bool {
    &&& instrs.len() > 0
    &&& instrs_decode_in(instrs, arch, b, base)
    &&& is_terminator_kind(cfg, instrs.last().kind)
}

/// Enumerates every anchor point of the region, in increasing offset
/// order: exactly the offsets whose decode is a terminator under `cfg`.
pub fn find_anchors(arch: &Architecture, b: &Vec<u8>, cfg: &SearchConfig) -> (r: Vec<usize>)
    ensures
        forall|t: int|
            0 <= t < r.len() ==> (#[trigger] r[t] as int) < b.len() && spec_anchor_ok(
                *arch,
                b@,
                r[t] as int,
                *cfg,
            ),
        forall|a: int|
            0 <= a < b.len() && spec_anchor_ok(*arch, b@, a, *cfg) ==> exists|t: int|
                0 <= t < r.len() && #[trigger] r[t] == a,
        forall|t1: int, t2: int| 0 <= t1 < t2 < r.len() ==> r[t1] < r[t2],
{
    let mut r: Vec<usize> = Vec::new();
    let n = b.len();
    let mut a: usize = 0;
    while a < n
        invariant
            0 <= a <= n,
            n == b.len(),
            forall|t: int|
                0 <= t < r.len() ==> (#[trigger] r[t] as int) < a && spec_anchor_ok(
                    *arch,
                    b@,
                    r[t] as int,
                    *cfg,
                ),
            forall|a2: int|
                0 <= a2 < a && spec_anchor_ok(*arch, b@, a2, *cfg) ==> exists|t: int|
                    0 <= t < r.len() && #[trigger] r[t] == a2,
            forall|t1: int, t2: int| 0 <= t1 < t2 < r.len() ==> r[t1] < r[t2],
        decreases n - a,
    {
        let (kind, _len) = decode_kind(arch, b, a);
        if is_terminator(cfg, &kind) {
            let ghost pre = r@;
            r.push(a);
            proof {
                assert forall|a2: int|
                    0 <= a2 < a + 1 && spec_anchor_ok(*arch, b@, a2, *cfg) implies exists|t: int|
                    0 <= t < r.len() && #[trigger] r[t] == a2 by {
                    if a2 < a {
                        let t = choose|t: int| 0 <= t < pre.len() && pre[t] == a2;
                        assert(r[t] == a2);
                    } else {
                        assert(r[pre.len() as int] == a2);
                    }
                }
            }
        }
        a = a + 1;
    }
    r
}

/// Tries every candidate start offset for the anchor at `a` (the window
/// `[a - max_gadget_bytes, a]`, clipped to the region) and records each
/// yielded gadget.
fn search_anchor(
    set: &mut GadgetSet,
    arch: &Architecture,
    region: &ExecutableRegion,
    cfg: &SearchConfig,
    bin: u64,
    a: usize,
)
    requires
        old(set).wf(),
        region.wf(),
        cfg.wf(),
        a < region.bytes.len(),
    ensures
        final(set).wf(),
        forall|k: Seq<InstrKind>|
            final(set).has_key(k) <==> old(set).has_key(k) || anchor_yields_upto(
                *arch,
                region.bytes@,
                *cfg,
                k,
                a as int,
                a + 1,
            ),
        forall|k: Seq<InstrKind>, b2: u64, ad: u64|
            final(set).occ_contains(k, b2, ad) <==> old(set).occ_contains(k, b2, ad) || (b2 == bin
                && anchor_yields_addr_upto(
                *arch,
                region.bytes@,
                *cfg,
                k,
                a as int,
                a + 1,
                region.base_address,
                ad,
            )),
        forall|k: Seq<InstrKind>, b2: u64|
            final(set).occ_has_bin(k, b2) <==> old(set).occ_has_bin(k, b2) || (b2 == bin
                && anchor_yields_upto(*arch, region.bytes@, *cfg, k, a as int, a + 1)),
        old(set).entries.len() <= final(set).entries.len(),
        forall|i: int|
            0 <= i < old(set).entries.len() ==> final(set).entries[i].instructions == old(
                set,
            ).entries[i].instructions,
        forall|i: int|
            old(set).entries.len() <= i < final(set).entries.len() ==> from_region(
                final(set).entries[i].instructions@,
                *arch,
                region.bytes@,
                region.base_address,
                *cfg,
            ),
{
    let ghost bs = region.bytes@;
    let ghost base = region.base_address;
    let lo: usize = if a > cfg.max_gadget_bytes {
        a - cfg.max_gadget_bytes
    } else {
        0
    };
    proof {
        // no candidate starts below the window
        assert forall|k: Seq<InstrKind>|
            anchor_yields_upto(*arch, bs, *cfg, k, a as int, lo as int) implies false by {
            let s = choose|s: int|
                s < lo && spec_builds(*arch, bs, s, a as int, *cfg) && spec_gadget_kinds(
                    *arch,
                    bs,
                    s,
                    a as int,
                ) == k;
        }
        assert forall|k: Seq<InstrKind>, ad: u64|
            anchor_yields_addr_upto(*arch, bs, *cfg, k, a as int, lo as int, base, ad) implies false by {
            let s = choose|s: int|
                s < lo && spec_builds(*arch, bs, s, a as int, *cfg) && spec_gadget_kinds(
                    *arch,
                    bs,
                    s,
                    a as int,
                ) == k && ad == base + s;
        }
    }
    let mut s: usize = lo;
    while s <= a
        invariant
            set.wf(),
            region.wf(),
            cfg.wf(),
            bs == region.bytes@,
            base == region.base_address,
            a < region.bytes.len(),
            lo <= s <= a + 1,
            a - lo <= cfg.max_gadget_bytes,
            forall|k: Seq<InstrKind>|
                set.has_key(k) <==> old(set).has_key(k) || anchor_yields_upto(
                    *arch,
                    bs,
                    *cfg,
                    k,
                    a as int,
                    s as int,
                ),
            forall|k: Seq<InstrKind>, b2: u64, ad: u64|
                set.occ_contains(k, b2, ad) <==> old(set).occ_contains(k, b2, ad) || (b2 == bin
                    && anchor_yields_addr_upto(*arch, bs, *cfg, k, a as int, s as int, base, ad)),
            forall|k: Seq<InstrKind>, b2: u64|
                set.occ_has_bin(k, b2) <==> old(set).occ_has_bin(k, b2) || (b2 == bin
                    && anchor_yields_upto(*arch, bs, *cfg, k, a as int, s as int)),
            old(set).entries.len() <= set.entries.len(),
            forall|i: int|
                0 <= i < old(set).entries.len() ==> set.entries[i].instructions == old(
                    set,
                ).entries[i].instructions,
            forall|i: int|
                old(set).entries.len() <= i < set.entries.len() ==> from_region(
                    set.entries[i].instructions@,
                    *arch,
                    bs,
                    base,
                    *cfg,
                ),
        decreases a + 1 - s,
    {
        let r = build_gadget(arch, region, s, a, cfg);
        match r {
            Some(g) => {
                let ghost gk = g.key();
                let ghost gf = g.spec_first();
                set.insert_occurrence(g, bin);
                proof {
                    assert(spec_builds(*arch, bs, s as int, a as int, *cfg));
                    assert(gk == spec_gadget_kinds(*arch, bs, s as int, a as int));
                    assert(gf == base + s);
                    assert forall|k: Seq<InstrKind>|
                        anchor_yields_upto(*arch, bs, *cfg, k, a as int, s + 1)
                            <==> anchor_yields_upto(*arch, bs, *cfg, k, a as int, s as int) || k
                            == gk by {
                        if anchor_yields_upto(*arch, bs, *cfg, k, a as int, s + 1) {
                            let s2 = choose|s2: int|
                                s2 < s + 1 && spec_builds(*arch, bs, s2, a as int, *cfg)
                                    && spec_gadget_kinds(*arch, bs, s2, a as int) == k;
                            if s2 < s {
                                assert(anchor_yields_upto(*arch, bs, *cfg, k, a as int, s as int));
                            }
                        }
                        if k == gk {
                            assert(spec_builds(*arch, bs, s as int, a as int, *cfg)
                                && spec_gadget_kinds(*arch, bs, s as int, a as int) == k);
                        }
                    }
                    assert forall|k: Seq<InstrKind>, ad: u64|
                        anchor_yields_addr_upto(*arch, bs, *cfg, k, a as int, s + 1, base, ad)
                            <==> anchor_yields_addr_upto(
                            *arch,
                            bs,
                            *cfg,
                            k,
                            a as int,
                            s as int,
                            base,
                            ad,
                        ) || (k == gk && ad == gf) by {
                        if anchor_yields_addr_upto(*arch, bs, *cfg, k, a as int, s + 1, base, ad) {
                            let s2 = choose|s2: int|
                                s2 < s + 1 && spec_builds(*arch, bs, s2, a as int, *cfg)
                                    && spec_gadget_kinds(*arch, bs, s2, a as int) == k && ad == base
                                    + s2;
                            if s2 < s {
                                assert(anchor_yields_addr_upto(
                                    *arch,
                                    bs,
                                    *cfg,
                                    k,
                                    a as int,
                                    s as int,
                                    base,
                                    ad,
                                ));
                            }
                        }
                        if k == gk && ad == gf {
                            assert(spec_builds(*arch, bs, s as int, a as int, *cfg)
                                && spec_gadget_kinds(*arch, bs, s as int, a as int) == k && ad
                                == base + s);
                        }
                    }
                }
            },
            None => {
                proof {
                    assert forall|k: Seq<InstrKind>|
                        anchor_yields_upto(*arch, bs, *cfg, k, a as int, s + 1)
                            <==> anchor_yields_upto(*arch, bs, *cfg, k, a as int, s as int) by {
                        if anchor_yields_upto(*arch, bs, *cfg, k, a as int, s + 1) {
                            let s2 = choose|s2: int|
                                s2 < s + 1 && spec_builds(*arch, bs, s2, a as int, *cfg)
                                    && spec_gadget_kinds(*arch, bs, s2, a as int) == k;
                            assert(s2 != s);
                        }
                    }
                    assert forall|k: Seq<InstrKind>, ad: u64|
                        anchor_yields_addr_upto(*arch, bs, *cfg, k, a as int, s + 1, base, ad)
                            <==> anchor_yields_addr_upto(
                            *arch,
                            bs,
                            *cfg,
                            k,
                            a as int,
                            s as int,
                            base,
                            ad,
                        ) by {
                        if anchor_yields_addr_upto(*arch, bs, *cfg, k, a as int, s + 1, base, ad) {
                            let s2 = choose|s2: int|
                                s2 < s + 1 && spec_builds(*arch, bs, s2, a as int, *cfg)
                                    && spec_gadget_kinds(*arch, bs, s2, a as int) == k && ad == base
                                    + s2;
                            assert(s2 != s);
                        }
                    }
                }
            },
        }
        s = s + 1;
    }
}

/// Searches one region, folding every yielded gadget into `set` for binary
/// `bin`: afterwards a key is present exactly when it was before or some
/// candidate of this region yields it, and the region's contribution to
/// the occurrence records is exactly its yielding start addresses.
pub fn search_region(
    set: &mut GadgetSet,
    arch: &Architecture,
    region: &ExecutableRegion,
    cfg: &SearchConfig,
    bin: u64,
)
    requires
        old(set).wf(),
        region.wf(),
        cfg.wf(),
    ensures
        final(set).wf(),
        forall|k: Seq<InstrKind>|
            final(set).has_key(k) <==> old(set).has_key(k) || region_yields(
                *arch,
                region.bytes@,
                *cfg,
                k,
            ),
        forall|k: Seq<InstrKind>, b2: u64, ad: u64|
            final(set).occ_contains(k, b2, ad) <==> old(set).occ_contains(k, b2, ad) || (b2 == bin
                && region_yields_addr(*arch, region.bytes@, *cfg, k, region.base_address, ad)),
        forall|k: Seq<InstrKind>, b2: u64|
            final(set).occ_has_bin(k, b2) <==> old(set).occ_has_bin(k, b2) || (b2 == bin
                && region_yields(*arch, region.bytes@, *cfg, k)),
        old(set).entries.len() <= final(set).entries.len(),
        forall|i: int|
            0 <= i < old(set).entries.len() ==> final(set).entries[i].instructions == old(
                set,
            ).entries[i].instructions,
        forall|i: int|
            old(set).entries.len() <= i < final(set).entries.len() ==> from_region(
                final(set).entries[i].instructions@,
                *arch,
                region.bytes@,
                region.base_address,
                *cfg,
            ),
{
    let ghost bs = region.bytes@;
    let ghost base = region.base_address;
    let n = region.bytes.len();
    let mut a: usize = 0;
    while a < n
        invariant
            set.wf(),
            region.wf(),
            cfg.wf(),
            bs == region.bytes@,
            base == region.base_address,
            n == region.bytes.len(),
            0 <= a <= n,
            forall|k: Seq<InstrKind>|
                set.has_key(k) <==> old(set).has_key(k) || region_yields_upto(
                    *arch,
                    bs,
                    *cfg,
                    k,
                    a as int,
                ),
            forall|k: Seq<InstrKind>, b2: u64, ad: u64|
                set.occ_contains(k, b2, ad) <==> old(set).occ_contains(k, b2, ad) || (b2 == bin
                    && region_yields_addr_upto(*arch, bs, *cfg, k, a as int, base, ad)),
            forall|k: Seq<InstrKind>, b2: u64|
                set.occ_has_bin(k, b2) <==> old(set).occ_has_bin(k, b2) || (b2 == bin
                    && region_yields_upto(*arch, bs, *cfg, k, a as int)),
            old(set).entries.len() <= set.entries.len(),
            forall|i: int|
                0 <= i < old(set).entries.len() ==> set.entries[i].instructions == old(
                    set,
                ).entries[i].instructions,
            forall|i: int|
                old(set).entries.len() <= i < set.entries.len() ==> from_region(
                    set.entries[i].instructions@,
                    *arch,
                    bs,
                    base,
                    *cfg,
                ),
        decreases n - a,
    {
        let (kind, _len) = decode_kind(arch, &region.bytes, a);
        if is_terminator(cfg, &kind) {
            let ghost mid = *set;
            search_anchor(set, arch, region, cfg, bin, a);
            proof {
                lemma_region_upto_step(*arch, bs, *cfg, a as int, base);
            }
        } else {
            proof {
                assert(!spec_anchor_ok(*arch, bs, a as int, *cfg));
                assert forall|k: Seq<InstrKind>|
                    region_yields_upto(*arch, bs, *cfg, k, a + 1) <==> region_yields_upto(
                        *arch,
                        bs,
                        *cfg,
                        k,
                        a as int,
                    ) by {
                    if region_yields_upto(*arch, bs, *cfg, k, a + 1) {
                        let a2 = choose|a2: int|
                            a2 < a + 1 && #[trigger] anchor_yields(*arch, bs, *cfg, k, a2);
                        if a2 == a {
                            let s = choose|s: int|
                                spec_builds(*arch, bs, s, a2, *cfg) && spec_gadget_kinds(
                                    *arch,
                                    bs,
                                    s,
                                    a2,
                                ) == k;
                        }
                        assert(a2 < a);
                    }
                }
                assert forall|k: Seq<InstrKind>, ad: u64|
                    region_yields_addr_upto(*arch, bs, *cfg, k, a + 1, base, ad)
                        <==> region_yields_addr_upto(*arch, bs, *cfg, k, a as int, base, ad) by {
                    if region_yields_addr_upto(*arch, bs, *cfg, k, a + 1, base, ad) {
                        let a2 = choose|a2: int|
                            a2 < a + 1 && #[trigger] anchor_yields_addr_upto(
                                *arch,
                                bs,
                                *cfg,
                                k,
                                a2,
                                bs.len() as int,
                                base,
                                ad,
                            );
                        if a2 == a {
                            let s = choose|s: int|
                                s < bs.len() && spec_builds(*arch, bs, s, a2, *cfg)
                                    && spec_gadget_kinds(*arch, bs, s, a2) == k && ad == base + s;
                        }
                        assert(a2 < a);
                    }
                }
            }
        }
        a = a + 1;
    }
    proof {
        assert forall|k: Seq<InstrKind>|
            region_yields_upto(*arch, bs, *cfg, k, n as int) <==> region_yields(
                *arch,
                bs,
                *cfg,
                k,
            ) by {
            if region_yields(*arch, bs, *cfg, k) {
                let a2 = choose|a2: int| #[trigger] anchor_yields(*arch, bs, *cfg, k, a2);
                let s = choose|s: int|
                    spec_builds(*arch, bs, s, a2, *cfg) && spec_gadget_kinds(*arch, bs, s, a2)
                        == k;
                assert(a2 < n);
            }
        }
        assert forall|k: Seq<InstrKind>, ad: u64|
            region_yields_addr_upto(*arch, bs, *cfg, k, n as int, base, ad) <==> region_yields_addr(
                *arch,
                bs,
                *cfg,
                k,
                base,
                ad,
            ) by {
            if region_yields_addr(*arch, bs, *cfg, k, base, ad) {
                let a2 = choose|a2: int| #[trigger] anchor_yields_addr_upto(
                    *arch,
                    bs,
                    *cfg,
                    k,
                    a2,
                    bs.len() as int,
                    base,
                    ad,
                );
                let s = choose|s: int|
                    s < bs.len() && spec_builds(*arch, bs, s, a2, *cfg) && spec_gadget_kinds(
                        *arch,
                        bs,
                        s,
                        a2,
                    ) == k && ad == base + s;
                assert(a2 < n);
            }
        }
    }
}

/// Some candidate of some region of the binary yields key `k`.
pub open spec fn binary_yields(
    arch: Architecture,
    regions: Seq<ExecutableRegion>,
    cfg: SearchConfig,
    k: Seq<InstrKind>,
) -> bool {
    exists|j: int|
        0 <= j < regions.len() && region_yields(arch, #[trigger] regions[j].bytes@, cfg, k)
}

/// Some candidate of some region of the binary yields key `k` starting at
/// address `ad`.
pub open spec fn binary_yields_addr(
    arch: Architecture,
    regions: Seq<ExecutableRegion>,
    cfg: SearchConfig,
    k: Seq<InstrKind>,
    ad: u64,
) -> bool {
    exists|j: int|
        0 <= j < regions.len() && region_yields_addr(
            arch,
            #[trigger] regions[j].bytes@,
            cfg,
            k,
            regions[j].base_address,
            ad,
        )
}

/// Like [`binary_yields`], over the regions before `j_lim` only.
pub open spec fn binary_yields_upto(
    arch: Architecture,
    regions: Seq<ExecutableRegion>,
    cfg: SearchConfig,
    k: Seq<InstrKind>,
    j_lim: int,
) -> bool {
    exists|j: int| 0 <= j < j_lim && region_yields(arch, #[trigger] regions[j].bytes@, cfg, k)
}

/// Like [`binary_yields_addr`], over the regions before `j_lim` only.
pub open spec fn binary_yields_addr_upto(
    arch: Architecture,
    regions: Seq<ExecutableRegion>,
    cfg: SearchConfig,
    k: Seq<InstrKind>,
    ad: u64,
    j_lim: int,
) -> bool {
    exists|j: int|
        0 <= j < j_lim && region_yields_addr(
            arch,
            #[trigger] regions[j].bytes@,
            cfg,
            k,
            regions[j].base_address,
            ad,
        )
}

/// The instruction run was decoded out of one of the binary's regions and
/// ends in a terminator.
pub open spec fn from_some_region(
    instrs: Seq<crate::insn::Instruction>,
    arch: Architecture,
    regions: Seq<ExecutableRegion>,
    cfg: SearchConfig,
) -> bool {
    exists|j: int|
        0 <= j < regions.len() && from_region(
            instrs,
            arch,
            #[trigger] regions[j].bytes@,
            regions[j].base_address,
            cfg,
        )
}

/// The configuration problem a run over these inputs reports, if any:
/// an unknown architecture first, then a bad window, then the first region
/// that is empty or whose address range wraps.
pub open spec fn spec_validate_regions(regions: Seq<ExecutableRegion>, i: int) -> Option<
    EngineError,
>
    decreases regions.len() - i,
{
    if i < 0 || i >= regions.len() {
        None
    } else if regions[i].bytes.len() == 0 {
        Some(EngineError::EmptyRegion)
    } else if regions[i].base_address + regions[i].bytes.len() > u64::MAX {
        Some(EngineError::RegionAddressOverflow)
    } else {
        spec_validate_regions(regions, i + 1)
    }
}

/// See [`spec_validate_regions`].
pub open spec fn spec_validate(
    arch: Architecture,
    regions: Seq<ExecutableRegion>,
    cfg: SearchConfig,
) -> Option<EngineError> {
    if arch == Architecture::Unknown {
        Some(EngineError::UnknownArchitecture)
    } else if !cfg.wf() {
        Some(EngineError::BadSearchWindow)
    } else {
        spec_validate_regions(regions, 0)
    }
}

/// Exact characterization of a successful per-binary search result: keys
/// are exactly the yielded canonical keys, the occurrence records are
/// exactly this binary's yielding start addresses, and every entry is a
/// terminator-ended run decoded out of one of the regions.
pub open spec fn search_post(
    set: GadgetSet,
    bin: u64,
    arch: Architecture,
    regions: Seq<ExecutableRegion>,
    cfg: SearchConfig,
) -> bool {
    &&& set.wf()
    &&& forall|k: Seq<InstrKind>|
        #[trigger] set.has_key(k) <==> binary_yields(arch, regions, cfg, k)
    &&& forall|k: Seq<InstrKind>, b2: u64, ad: u64|
        #[trigger] set.occ_contains(k, b2, ad) <==> (b2 == bin && binary_yields_addr(
            arch,
            regions,
            cfg,
            k,
            ad,
        ))
    &&& forall|k: Seq<InstrKind>, b2: u64|
        #[trigger] set.occ_has_bin(k, b2) <==> (b2 == bin && binary_yields(arch, regions, cfg, k))
    &&& forall|i: int|
        0 <= i < set.entries.len() ==> from_some_region(
            #[trigger] set.entries[i].instructions@,
            arch,
            regions,
            cfg,
        )
}

/// Searches every region of one binary and returns its deduplicated gadget
/// set, every occurrence tagged with `bin`.
///
/// The inputs are checked up front: an `Unknown` architecture, a bad
/// window, an empty region or a wrapping region is reported as the
/// configuration error [`spec_validate`] names, and no partial result is
/// returned. On success the result satisfies [`search_post`] — the exact
/// sound-and-complete description of the search.
pub fn search_binary(
    bin: u64,
    arch: &Architecture,
    regions: &Vec<ExecutableRegion>,
    cfg: &SearchConfig,
) -> (r: Result<GadgetSet, EngineError>)
    ensures
        r is Ok <==> spec_validate(*arch, regions@, *cfg) is None,
        r is Err ==> Some(r->Err_0) == spec_validate(*arch, regions@, *cfg),
        r is Ok ==> search_post(r->Ok_0, bin, *arch, regions@, *cfg),
{
    if matches!(arch, Architecture::Unknown) {
        return Err(EngineError::UnknownArchitecture);
    }
    if !cfg.check_wf() {
        return Err(EngineError::BadSearchWindow);
    }
    let n = regions.len();
    let mut j: usize = 0;
    while j < n
        invariant
            n == regions.len(),
            0 <= j <= n,
            !(*arch is Unknown),
            cfg.wf(),
            spec_validate_regions(regions@, 0) == spec_validate_regions(regions@, j as int),
            forall|t: int| 0 <= t < j ==> (#[trigger] regions[t]).wf(),
        decreases n - j,
    {
        if regions[j].bytes.len() == 0 {
            proof {
                assert(spec_validate_regions(regions@, j as int) == Some(
                    EngineError::EmptyRegion,
                ));
                assert(spec_validate(*arch, regions@, *cfg) == Some(EngineError::EmptyRegion));
            }
            return Err(EngineError::EmptyRegion);
        }
        if !regions[j].check_wf() {
            proof {
                assert(spec_validate_regions(regions@, j as int) == Some(
                    EngineError::RegionAddressOverflow,
                ));
                assert(spec_validate(*arch, regions@, *cfg) == Some(
                    EngineError::RegionAddressOverflow,
                ));
            }
            return Err(EngineError::RegionAddressOverflow);
        }
        j = j + 1;
    }
    let mut set = GadgetSet::new();
    let ghost empty = set;
    let mut t: usize = 0;
    while t < n
        invariant
            n == regions.len(),
            0 <= t <= n,
            cfg.wf(),
            !(*arch is Unknown),
            forall|t2: int| 0 <= t2 < n ==> (#[trigger] regions[t2]).wf(),
            set.wf(),
            forall|k: Seq<InstrKind>|
                #[trigger] set.has_key(k) <==> binary_yields_upto(
                    *arch,
                    regions@,
                    *cfg,
                    k,
                    t as int,
                ),
            forall|k: Seq<InstrKind>, b2: u64, ad: u64|
                #[trigger] set.occ_contains(k, b2, ad) <==> (b2 == bin && binary_yields_addr_upto(
                    *arch,
                    regions@,
                    *cfg,
                    k,
                    ad,
                    t as int,
                )),
            forall|k: Seq<InstrKind>, b2: u64|
                #[trigger] set.occ_has_bin(k, b2) <==> (b2 == bin && binary_yields_upto(
                    *arch,
                    regions@,
                    *cfg,
                    k,
                    t as int,
                )),
            forall|i: int|
                0 <= i < set.entries.len() ==> from_some_region(
                    #[trigger] set.entries[i].instructions@,
                    *arch,
                    regions@,
                    *cfg,
                ),
        decreases n - t,
    {
        let ghost prev = set;
        search_region(&mut set, arch, &regions[t], cfg, bin);
        proof {
            let bs = regions@[t as int].bytes@;
            let base = regions@[t as int].base_address;
            assert forall|k: Seq<InstrKind>|
                #[trigger] set.has_key(k) <==> binary_yields_upto(
                    *arch,
                    regions@,
                    *cfg,
                    k,
                    t + 1,
                ) by {
                if set.has_key(k) {
                    if prev.has_key(k) {
                        let j2 = choose|j2: int|
                            0 <= j2 < t && region_yields(
                                *arch,
                                #[trigger] regions@[j2].bytes@,
                                *cfg,
                                k,
                            );
                        assert(0 <= j2 < t + 1);
                    } else {
                        assert(region_yields(*arch, regions@[t as int].bytes@, *cfg, k));
                    }
                }
                if binary_yields_upto(*arch, regions@, *cfg, k, t + 1) {
                    let j2 = choose|j2: int|
                        0 <= j2 < t + 1 && region_yields(
                            *arch,
                            #[trigger] regions@[j2].bytes@,
                            *cfg,
                            k,
                        );
                    if j2 < t {
                        assert(binary_yields_upto(*arch, regions@, *cfg, k, t as int));
                    }
                }
            }
            assert forall|k: Seq<InstrKind>, b2: u64, ad: u64|
                #[trigger] set.occ_contains(k, b2, ad) <==> (b2 == bin && binary_yields_addr_upto(
                    *arch,
                    regions@,
                    *cfg,
                    k,
                    ad,
                    t + 1,
                )) by {
                if set.occ_contains(k, b2, ad) {
                    if prev.occ_contains(k, b2, ad) {
                        let j2 = choose|j2: int|
                            0 <= j2 < t && region_yields_addr(
                                *arch,
                                #[trigger] regions@[j2].bytes@,
                                *cfg,
                                k,
                                regions@[j2].base_address,
                                ad,
                            );
                        assert(0 <= j2 < t + 1);
                    } else {
                        assert(region_yields_addr(
                            *arch,
                            regions@[t as int].bytes@,
                            *cfg,
                            k,
                            base,
                            ad,
                        ));
                    }
                }
                if b2 == bin && binary_yields_addr_upto(*arch, regions@, *cfg, k, ad, t + 1) {
                    let j2 = choose|j2: int|
                        0 <= j2 < t + 1 && region_yields_addr(
                            *arch,
                            #[trigger] regions@[j2].bytes@,
                            *cfg,
                            k,
                            regions@[j2].base_address,
                            ad,
                        );
                    if j2 < t {
                        assert(binary_yields_addr_upto(*arch, regions@, *cfg, k, ad, t as int));
                    }
                }
            }
            assert forall|k: Seq<InstrKind>, b2: u64|
                #[trigger] set.occ_has_bin(k, b2) <==> (b2 == bin && binary_yields_upto(
                    *arch,
                    regions@,
                    *cfg,
                    k,
                    t + 1,
                )) by {
                if set.occ_has_bin(k, b2) {
                    if prev.occ_has_bin(k, b2) {
                        let j2 = choose|j2: int|
                            0 <= j2 < t && region_yields(
                                *arch,
                                #[trigger] regions@[j2].bytes@,
                                *cfg,
                                k,
                            );
                        assert(0 <= j2 < t + 1);
                    } else {
                        assert(region_yields(*arch, regions@[t as int].bytes@, *cfg, k));
                    }
                }
                if b2 == bin && binary_yields_upto(*arch, regions@, *cfg, k, t + 1) {
                    let j2 = choose|j2: int|
                        0 <= j2 < t + 1 && region_yields(
                            *arch,
                            #[trigger] regions@[j2].bytes@,
                            *cfg,
                            k,
                        );
                    if j2 < t {
                        assert(binary_yields_upto(*arch, regions@, *cfg, k, t as int));
                    }
                }
            }
            assert forall|i: int| 0 <= i < set.entries.len() implies from_some_region(
                #[trigger] set.entries[i].instructions@,
                *arch,
                regions@,
                *cfg,
            ) by {
                if i < prev.entries.len() {
                    assert(set.entries[i].instructions == prev.entries[i].instructions);
                } else {
                    assert(from_region(set.entries[i].instructions@, *arch, bs, base, *cfg));
                }
            }
        }
        t = t + 1;
    }
    proof {
        assert forall|k: Seq<InstrKind>|
            binary_yields_upto(*arch, regions@, *cfg, k, n as int) <==> binary_yields(
                *arch,
                regions@,
                *cfg,
                k,
            ) by {}
        assert forall|k: Seq<InstrKind>, ad: u64|
            binary_yields_addr_upto(*arch, regions@, *cfg, k, ad, n as int) <==> binary_yields_addr(
                *arch,
                regions@,
                *cfg,
                k,
                ad,
            ) by {}
    }
    Ok(set)
}

/// Determinism: any two searches over the same binary identifier, regions
/// and configuration agree exactly — same canonical keys, same occurrence
/// records — whatever order the work was done in.
pub proof fn lemma_search_deterministic(
    s1: GadgetSet,
    s2: GadgetSet,
    bin: u64,
    arch: Architecture,
    regions: Seq<ExecutableRegion>,
    cfg: SearchConfig,
)
    requires
        search_post(s1, bin, arch, regions, cfg),
        search_post(s2, bin, arch, regions, cfg),
    ensures
        forall|k: Seq<InstrKind>| #[trigger] s1.has_key(k) <==> s2.has_key(k),
        forall|k: Seq<InstrKind>, b: u64, a: u64|
            #[trigger] s1.occ_contains(k, b, a) <==> s2.occ_contains(k, b, a),
        forall|k: Seq<InstrKind>, b: u64| #[trigger] s1.occ_has_bin(k, b) <==> s2.occ_has_bin(k, b),
{
}

/// A per-binary search result records occurrences under its own binary
/// identifier alone, and records that identifier for every key it holds —
/// the provenance facts cross-reference queries rest on.
pub proof fn lemma_search_occurrence_provenance(
    set: GadgetSet,
    bin: u64,
    arch: Architecture,
    regions: Seq<ExecutableRegion>,
    cfg: SearchConfig,
)
    requires
        search_post(set, bin, arch, regions, cfg),
    ensures
        forall|k: Seq<InstrKind>| #[trigger] set.has_key(k) <==> set.occ_has_bin(k, bin),
        forall|k: Seq<InstrKind>, b: u64| #[trigger] set.occ_has_bin(k, b) ==> b == bin,
{
}

/// Anchor exactness: every gadget a search produced ends in an instruction
/// that is a recognized terminator, and that instruction is exactly the
/// decode of some region's bytes at the gadget's ending address — no
/// gadget ends mid-instruction or past its anchor.
pub proof fn lemma_anchor_exactness(
    set: GadgetSet,
    bin: u64,
    arch: Architecture,
    regions: Seq<ExecutableRegion>,
    cfg: SearchConfig,
    i: int,
)
    requires
        search_post(set, bin, arch, regions, cfg),
        0 <= i < set.entries.len(),
    ensures
        set.entries[i].instructions.len() > 0,
        is_terminator_kind(cfg, set.entries[i].instructions@.last().kind),
        exists|j: int|
            0 <= j < regions.len() && {
                let last = set.entries[i].instructions@.last();
                let off = last.address - (#[trigger] regions[j]).base_address;
                &&& 0 <= off < regions[j].bytes.len()
                &&& crate::decode::spec_decode(arch, regions[j].bytes@, off) == (
                    last.kind,
                    last.bytes.len() as int,
                )
            },
{
    let instrs = set.entries[i].instructions@;
    assert(from_some_region(instrs, arch, regions, cfg));
    let j = choose|j: int|
        0 <= j < regions.len() && from_region(
            instrs,
            arch,
            #[trigger] regions[j].bytes@,
            regions[j].base_address,
            cfg,
        );
    assert(instrs[instrs.len() - 1] == instrs.last());
    assert(0 <= j < regions.len() && {
        let last = instrs.last();
        let off = last.address - regions[j].base_address;
        &&& 0 <= off < regions[j].bytes.len()
        &&& crate::decode::spec_decode(arch, regions[j].bytes@, off) == (
            last.kind,
            last.bytes.len() as int,
        )
    });
}

/// One anchor's contribution: the candidates with anchors below `a + 1`
/// are those below `a` plus those ending exactly at `a`.
proof fn lemma_region_upto_step(
    arch: Architecture,
    b: Seq<u8>,
    cfg: SearchConfig,
    a: int,
    base: u64,
)
    requires
        0 <= a < b.len(),
    ensures
        forall|k: Seq<InstrKind>|
            region_yields_upto(arch, b, cfg, k, a + 1) <==> region_yields_upto(arch, b, cfg, k, a)
                || anchor_yields_upto(arch, b, cfg, k, a, a + 1),
        forall|k: Seq<InstrKind>, ad: u64|
            region_yields_addr_upto(arch, b, cfg, k, a + 1, base, ad) <==> region_yields_addr_upto(
                arch,
                b,
                cfg,
                k,
                a,
                base,
                ad,
            ) || anchor_yields_addr_upto(arch, b, cfg, k, a, a + 1, base, ad),
{
    assert forall|k: Seq<InstrKind>|
        region_yields_upto(arch, b, cfg, k, a + 1) <==> region_yields_upto(arch, b, cfg, k, a)
            || anchor_yields_upto(arch, b, cfg, k, a, a + 1) by {
        if region_yields_upto(arch, b, cfg, k, a + 1) {
            let a2 = choose|a2: int| a2 < a + 1 && #[trigger] anchor_yields(arch, b, cfg, k, a2);
            if a2 == a {
                let s = choose|s: int|
                    spec_builds(arch, b, s, a2, cfg) && spec_gadget_kinds(arch, b, s, a2) == k;
                assert(s < a + 1);
                assert(anchor_yields_upto(arch, b, cfg, k, a, a + 1));
            }
        }
        if anchor_yields_upto(arch, b, cfg, k, a, a + 1) {
            let s = choose|s: int|
                s < a + 1 && spec_builds(arch, b, s, a, cfg) && spec_gadget_kinds(arch, b, s, a)
                    == k;
            assert(anchor_yields(arch, b, cfg, k, a));
        }
        if region_yields_upto(arch, b, cfg, k, a) {
            let a2 = choose|a2: int| a2 < a && #[trigger] anchor_yields(arch, b, cfg, k, a2);
            assert(a2 < a + 1);
        }
    }
    assert forall|k: Seq<InstrKind>, ad: u64|
        region_yields_addr_upto(arch, b, cfg, k, a + 1, base, ad) <==> region_yields_addr_upto(
            arch,
            b,
            cfg,
            k,
            a,
            base,
            ad,
        ) || anchor_yields_addr_upto(arch, b, cfg, k, a, a + 1, base, ad) by {
        if region_yields_addr_upto(arch, b, cfg, k, a + 1, base, ad) {
            let a2 = choose|a2: int|
                a2 < a + 1 && #[trigger] anchor_yields_addr_upto(
                    arch,
                    b,
                    cfg,
                    k,
                    a2,
                    b.len() as int,
                    base,
                    ad,
                );
            if a2 == a {
                let s = choose|s: int|
                    s < b.len() && spec_builds(arch, b, s, a2, cfg) && spec_gadget_kinds(
                        arch,
                        b,
                        s,
                        a2,
                    ) == k && ad == base + s;
                assert(s < a + 1);
                assert(anchor_yields_addr_upto(arch, b, cfg, k, a, a + 1, base, ad));
            }
        }
        if anchor_yields_addr_upto(arch, b, cfg, k, a, a + 1, base, ad) {
            let s = choose|s: int|
                s < a + 1 && spec_builds(arch, b, s, a, cfg) && spec_gadget_kinds(arch, b, s, a)
                    == k && ad == base + s;
            assert(s < b.len());
            assert(anchor_yields_addr_upto(arch, b, cfg, k, a, b.len() as int, base, ad));
        }
        if region_yields_addr_upto(arch, b, cfg, k, a, base, ad) {
            let a2 = choose|a2: int|
                a2 < a && #[trigger] anchor_yields_addr_upto(
                    arch,
                    b,
                    cfg,
                    k,
                    a2,
                    b.len() as int,
                    base,
                    ad,
                );
            assert(a2 < a + 1);
        }
    }
}

} // verus!
