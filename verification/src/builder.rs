//! Straight-line gadget construction from a candidate start offset to an
//! anchor.
//!
//! Decoding runs forward from the start offset and must land exactly on the
//! anchor: an invalid intermediate encoding, overshooting the anchor, or an
//! internal control transfer (when the policy forbids one) discards the
//! candidate. A start offset that falls mid-instruction relative to some
//! other decode path is attempted independently — overlapping decode
//! interpretations are the point, not a defect.

use vstd::prelude::*;

use crate::arch::Architecture;
use crate::decode::{classify, spec_decode};
use crate::gadget::{kinds_of, sum_len, Gadget};
use crate::insn::{Instruction, InstrKind};
use crate::region::{is_terminator, is_terminator_kind, ExecutableRegion, SearchConfig};

verus! {

/// The normalized instructions obtained by decoding forward from offset `s`
/// and landing exactly on offset `a` (exclusive): `None` when an invalid
/// encoding is met or an instruction steps past `a`.
pub open spec fn spec_decode_run(arch: Architecture, b: Seq<u8>, s: int, a: int) -> Option<
    Seq<InstrKind>,
>
    decreases a - s,
{
    if s >= a {
        if s == a {
            Some(Seq::empty())
        } else {
            None
        }
    } else {
        let (k, l) = spec_decode(arch, b, s);
        if k == InstrKind::Invalid || l < 1 || s + l > a {
            None
        } else {
            match spec_decode_run(arch, b, s + l, a) {
                Some(rest) => Some(seq![k] + rest),
                None => None,
            }
        }
    }
}

/// A decode run splits at any offset it passes through: the run over
/// `[s, a)` is the run over `[s, m)` followed by the run over `[m, a)`.
pub proof fn lemma_run_concat(arch: Architecture, b: Seq<u8>, s: int, m: int, a: int)
    requires
        s <= m <= a,
        spec_decode_run(arch, b, s, m) is Some,
    ensures
        spec_decode_run(arch, b, s, a) == match spec_decode_run(arch, b, m, a) {
            Some(t) => Some(spec_decode_run(arch, b, s, m)->Some_0 + t),
            None => None::<Seq<InstrKind>>,
        },
    decreases m - s,
{
    let p = spec_decode_run(arch, b, s, m)->Some_0;
    if s == m {
        match spec_decode_run(arch, b, m, a) {
            Some(t) => {
                assert(p + t =~= t);
            },
            None => {},
        }
    } else {
        let (k, l) = spec_decode(arch, b, s);
        let p2 = spec_decode_run(arch, b, s + l, m)->Some_0;
        lemma_run_concat(arch, b, s + l, m, a);
        match spec_decode_run(arch, b, m, a) {
            Some(t) => {
                assert(p =~= seq![k] + p2);
                assert(seq![k] + (p2 + t) =~= (seq![k] + p2) + t);
            },
            None => {},
        }
    }
}

/// Whether decoding at offset `a` yields a terminator under `cfg` — an
/// anchor point.
pub open spec fn spec_anchor_ok(arch: Architecture, b: Seq<u8>, a: int, cfg: SearchConfig) -> bool {
    is_terminator_kind(cfg, spec_decode(arch, b, a).0)
}

/// No instruction of the run is itself a terminator under `cfg`.
pub open spec fn no_internal_terminator(ks: Seq<InstrKind>, cfg: SearchConfig) -> bool {
    forall|i: int| 0 <= i < ks.len() ==> !is_terminator_kind(cfg, #[trigger] ks[i])
}

/// Whether the candidate `(s, a)` yields a gadget: `a` is an anchor inside
/// the window, decoding from `s` lands exactly on `a`, and no instruction
/// before the terminator is itself one (unless the policy permits it).
pub open spec fn spec_builds(
    arch: Architecture,
    b: Seq<u8>,
    s: int,
    a: int,
    cfg: SearchConfig,
) -> bool {
    &&& 0 <= s <= a < b.len()
    &&& a - s <= cfg.max_gadget_bytes
    &&& spec_anchor_ok(arch, b, a, cfg)
    &&& match spec_decode_run(arch, b, s, a) {
        Some(ks) => cfg.allow_internal_branches || no_internal_terminator(ks, cfg),
        None => false,
    }
}

/// The canonical key of the gadget the candidate `(s, a)` yields: the run's
/// normalized instructions followed by the terminator's.
pub open spec fn spec_gadget_kinds(arch: Architecture, b: Seq<u8>, s: int, a: int) -> Seq<
    InstrKind,
> {
    spec_decode_run(arch, b, s, a)->Some_0 + seq![spec_decode(arch, b, a).0]
}

/// Every instruction of the run is the decode of the bytes at its own
/// address, relative to a region whose bytes are `b` mapped at `base`.
pub open spec fn instrs_decode_in(s: Seq<Instruction>, arch: Architecture, b: Seq<u8>, base: u64) -> bool {
    forall|i: int|
        0 <= i < s.len() ==> {
            let ins = #[trigger] s[i];
            let off = ins.address - base;
            &&& 0 <= off < b.len()
            &&& spec_decode(arch, b, off) == (ins.kind, ins.bytes.len() as int)
            &&& ins.bytes@ == b.subrange(off, off + ins.bytes.len())
        }
}

/// Every instruction of `g` is the decode of the bytes at its own address.
pub open spec fn gadget_decodes_in(g: Gadget, arch: Architecture, b: Seq<u8>, base: u64) -> bool {
    instrs_decode_in(g.instructions@, arch, b, base)
}

/// Attempts the candidate `(start, anchor)`: decodes forward from `start`,
/// discards the candidate on an invalid encoding, on overshooting the
/// anchor, or on an internal terminator forbidden by policy, and otherwise
/// returns the gadget ending in the anchor's terminator. A bare terminator
/// (`start == anchor`) is a valid one-instruction gadget.
///
/// The result is `Some` exactly when [`spec_builds`] holds; the gadget's
/// instruction sequence is then pinned: its key is [`spec_gadget_kinds`],
/// it starts at `base + start`, ends one past the terminator, and each
/// instruction is the decode at its own address.
pub fn build_gadget(
    arch: &Architecture,
    region: &ExecutableRegion,
    start: usize,
    anchor: usize,
    cfg: &SearchConfig,
) -> (r: Option<Gadget>)
    requires
        region.wf(),
        cfg.wf(),
        start <= anchor < region.bytes.len(),
        anchor - start <= cfg.max_gadget_bytes,
    ensures
        r is Some <==> spec_builds(*arch, region.bytes@, start as int, anchor as int, *cfg),
        r is Some ==> {
            let g = r->Some_0;
            &&& g.wf()
            &&& g.occurs_in.len() == 0
            &&& g.key() == spec_gadget_kinds(*arch, region.bytes@, start as int, anchor as int)
            &&& g.spec_first() == region.base_address + start
            &&& g.instructions@.last().address == region.base_address + anchor
            &&& is_terminator_kind(*cfg, g.instructions@.last().kind)
            &&& gadget_decodes_in(g, *arch, region.bytes@, region.base_address)
            &&& sum_len(g.instructions@) == anchor - start + spec_decode(
                *arch,
                region.bytes@,
                anchor as int,
            ).1
        },
{
    let b = &region.bytes;
    let base = region.base_address;
    let ghost bs = region.bytes@;
    let mut instrs: Vec<Instruction> = Vec::new();
    let mut off: usize = start;
    while off < anchor
        invariant
            region.wf(),
            cfg.wf(),
            b == &region.bytes,
            bs == region.bytes@,
            base == region.base_address,
            start <= off <= anchor < b.len(),
            spec_decode_run(*arch, bs, start as int, off as int) == Some(kinds_of(instrs@)),
            instrs.len() > 0 ==> instrs[0].address == base + start,
            instrs.len() > 0 ==> instrs@.last().address + instrs@.last().bytes.len() == base + off,
            forall|i: int| 0 <= i < instrs.len() ==> #[trigger] instrs[i].wf(),
            forall|i: int|
                1 <= i < instrs.len() ==> #[trigger] instrs[i].address == instrs[i - 1].address
                    + instrs[i - 1].bytes.len(),
            instrs_decode_in(instrs@, *arch, bs, base),
            !cfg.allow_internal_branches ==> no_internal_terminator(kinds_of(instrs@), *cfg),
            sum_len(instrs@) == off - start,
            off == start <==> instrs.len() == 0,
        decreases anchor - off,
    {
        let instr = classify(arch, b, off, base);
        let l = instr.bytes.len();
        proof {
            crate::decode::lemma_decode_props(*arch, bs, off as int);
        }
        if matches!(instr.kind, InstrKind::Invalid) {
            proof {
                lemma_run_concat(*arch, bs, start as int, off as int, anchor as int);
            }
            return None;
        }
        if l > anchor - off {
            proof {
                lemma_run_concat(*arch, bs, start as int, off as int, anchor as int);
            }
            return None;
        }
        if !cfg.allow_internal_branches && is_terminator(cfg, &instr.kind) {
            proof {
                lemma_run_concat(*arch, bs, start as int, off as int, anchor as int);
                let run_rest = spec_decode_run(*arch, bs, off as int, anchor as int);
                if run_rest is Some {
                    let full = spec_decode_run(*arch, bs, start as int, anchor as int);
                    assert(full == Some(kinds_of(instrs@) + run_rest->Some_0));
                    assert(run_rest->Some_0[0] == instr.kind);
                    let ks = full->Some_0;
                    assert(ks[instrs.len() as int] == instr.kind);
                    assert(!no_internal_terminator(ks, *cfg));
                }
            }
            return None;
        }
        proof {
            // one more decoded instruction extends the prefix run
            assert(spec_decode_run(*arch, bs, off as int, off + l) == Some(seq![instr.kind]))
                by {
                assert(spec_decode_run(*arch, bs, off + l, off + l) == Some(
                    Seq::<InstrKind>::empty(),
                ));
                assert(seq![instr.kind] + Seq::<InstrKind>::empty() =~= seq![instr.kind]);
            }
            lemma_run_concat(*arch, bs, start as int, off as int, off + l);
            assert(kinds_of(instrs@) + seq![instr.kind] =~= kinds_of(instrs@.push(instr)));
            assert(instrs@.push(instr).drop_last() =~= instrs@);
        }
        let ghost old_instrs = instrs@;
        instrs.push(instr);
        off = off + l;
        proof {
            assert forall|i: int| 0 <= i < instrs.len() implies {
                let ins = #[trigger] instrs@[i];
                let o = ins.address - base;
                &&& 0 <= o < bs.len()
                &&& spec_decode(*arch, bs, o) == (ins.kind, ins.bytes.len() as int)
                &&& ins.bytes@ == bs.subrange(o, o + ins.bytes.len())
            } by {
                if i < old_instrs.len() {
                    assert(old_instrs[i] == instrs[i]);
                }
            }
        }
    }
    // landed exactly on the anchor: it must itself decode as a terminator
    let instr = classify(arch, b, anchor, base);
    proof {
        crate::decode::lemma_decode_props(*arch, bs, anchor as int);
    }
    if !is_terminator(cfg, &instr.kind) {
        return None;
    }
    let ghost old_instrs = instrs@;
    let ghost alen = instr.bytes@.len() as int;
    instrs.push(instr);
    let g = Gadget { instructions: instrs, occurs_in: Vec::new() };
    proof {
        assert(spec_decode_run(*arch, bs, start as int, anchor as int) == Some(
            kinds_of(old_instrs),
        ));
        assert(spec_builds(*arch, bs, start as int, anchor as int, *cfg));
        assert(kinds_of(old_instrs.push(instr)) =~= kinds_of(old_instrs) + seq![instr.kind]);
        assert(g.key() == spec_gadget_kinds(*arch, bs, start as int, anchor as int));
        assert(old_instrs.push(instr).drop_last() =~= old_instrs);
        assert(sum_len(g.instructions@) == anchor - start + alen);
        assert forall|i: int| 0 <= i < g.instructions.len() implies {
            let ins = #[trigger] g.instructions@[i];
            let o = ins.address - base;
            &&& 0 <= o < bs.len()
            &&& spec_decode(*arch, bs, o) == (ins.kind, ins.bytes.len() as int)
            &&& ins.bytes@ == bs.subrange(o, o + ins.bytes.len())
        } by {
            if i < old_instrs.len() {
                assert(old_instrs[i] == g.instructions[i]);
            }
        }
        assert(g.wf());
    }
    Some(g)
}

} // verus!
