//! Cross-referencing gadget sets from several binaries.
//!
//! Matching is pure set algebra over canonical keys: a full match is a key
//! present in every queried binary, a partial match one present in at
//! least one but not all. Occurrence records are merged by union; nothing
//! is re-decoded. Matching is on decoded instruction identity, never on
//! raw bytes, so equivalent-but-differently-encoded forms of one gadget
//! count as the same key across binaries.

use vstd::prelude::*;

use crate::decode::copy_range;
use crate::gadget::{kinds_of, sum_len, Gadget, GadgetSet};
use crate::insn::{Instruction, InstrKind};
use crate::region::EngineError;

verus! {

/// Whether a cross-reference result holds full or partial matches.
#[derive(Clone, Copy, PartialEq, Eq, Structural, Debug)]
pub enum MatchKind {
    /// Every queried binary contains the gadget.
    Full,
    /// A strict, nonempty subset of the queried binaries contains the
    /// gadget; the subset is recorded per gadget in its occurrence map.
    Partial,
}

/// A cross-reference result: the matched gadgets and which kind of match
/// was queried.
#[derive(Debug)]
pub struct MatchResult {
    /// Which match was computed.
    pub kind: MatchKind,
    /// The matched gadgets, occurrences merged across all inputs.
    pub set: GadgetSet,
}

/// Two instruction runs with the same normalized records: same identities,
/// same addresses, same raw bytes.
pub open spec fn same_instrs(a: Seq<Instruction>, b: Seq<Instruction>) -> bool {
    &&& a.len() == b.len()
    &&& forall|i: int|
        0 <= i < a.len() ==> (#[trigger] a[i]).kind == b[i].kind && a[i].address == b[i].address
            && a[i].bytes@ == b[i].bytes@
}

/// An owned copy of one instruction record.
fn clone_instruction(ins: &Instruction) -> (r: Instruction)
    ensures
        r.kind == ins.kind,
        r.address == ins.address,
        r.bytes@ == ins.bytes@,
{
    let bytes = copy_range(&ins.bytes, 0, ins.bytes.len());
    proof {
        assert(bytes@ =~= ins.bytes@);
    }
    Instruction { address: ins.address, kind: ins.kind, bytes }
}

/// An owned copy of an instruction run.
fn clone_instructions(v: &Vec<Instruction>) -> (r: Vec<Instruction>)
    ensures
        same_instrs(r@, v@),
{
    let n = v.len();
    let mut r: Vec<Instruction> = Vec::new();
    let mut i: usize = 0;
    while i < n
        invariant
            0 <= i <= n,
            n == v.len(),
            r.len() == i,
            forall|t: int|
                0 <= t < i ==> (#[trigger] r[t]).kind == v[t].kind && r[t].address == v[t].address
                    && r[t].bytes@ == v[t].bytes@,
        decreases n - i,
    {
        r.push(clone_instruction(&v[i]));
        i = i + 1;
    }
    r
}

/// A copy with the same instruction model keeps the key, the byte count,
/// the structural well-formedness and the first address.
pub proof fn lemma_same_instrs_model(a: Seq<Instruction>, b: Seq<Instruction>)
    requires
        same_instrs(a, b),
    ensures
        kinds_of(a) == kinds_of(b),
        sum_len(a) == sum_len(b),
    decreases a.len(),
{
    assert(kinds_of(a) =~= kinds_of(b));
    if a.len() > 0 {
        assert(same_instrs(a.drop_last(), b.drop_last()));
        lemma_same_instrs_model(a.drop_last(), b.drop_last());
        assert(a.last() == a[a.len() - 1]);
    }
}

/// Key `k` is present in every one of the sets.
pub open spec fn in_all(sets: Seq<GadgetSet>, k: Seq<InstrKind>) -> bool {
    forall|j: int| 0 <= j < sets.len() ==> (#[trigger] sets[j]).has_key(k)
}

/// Key `k` is present in at least one of the sets before `j_lim`.
pub open spec fn in_some_upto(sets: Seq<GadgetSet>, k: Seq<InstrKind>, j_lim: int) -> bool {
    exists|j: int| 0 <= j < j_lim && (#[trigger] sets[j]).has_key(k)
}

/// Key `k` is present in at least one of the sets.
pub open spec fn in_some(sets: Seq<GadgetSet>, k: Seq<InstrKind>) -> bool {
    in_some_upto(sets, k, sets.len() as int)
}

/// Some set at index `from` or later records address `a` in binary `b`
/// for key `k`.
pub open spec fn some_occ_from(
    sets: Seq<GadgetSet>,
    k: Seq<InstrKind>,
    b: u64,
    a: u64,
    from: int,
) -> bool {
    exists|j: int| from <= j < sets.len() && (#[trigger] sets[j]).occ_contains(k, b, a)
}

/// Some set at index `from` or later records an occurrence in binary `b`
/// for key `k`.
pub open spec fn some_occ_bin_from(
    sets: Seq<GadgetSet>,
    k: Seq<InstrKind>,
    b: u64,
    from: int,
) -> bool {
    exists|j: int| from <= j < sets.len() && (#[trigger] sets[j]).occ_has_bin(k, b)
}

/// Whether every set holds the canonical key of `instrs`.
fn all_have_key(sets: &Vec<GadgetSet>, instrs: &Vec<Instruction>) -> (r: bool)
    ensures
        r == in_all(sets@, kinds_of(instrs@)),
{
    let n = sets.len();
    let mut j: usize = 0;
    while j < n
        invariant
            0 <= j <= n,
            n == sets.len(),
            forall|t: int| 0 <= t < j ==> (#[trigger] sets[t]).has_key(kinds_of(instrs@)),
        decreases n - j,
    {
        match sets[j].find_key_index(instrs) {
            Some(i) => {
                proof {
                    assert(sets[j as int].has_key(kinds_of(instrs@)));
                }
            },
            None => {
                return false;
            },
        }
        j = j + 1;
    }
    true
}

/// Whether a set before index `hi` holds the canonical key of `instrs`.
fn any_have_key_below(sets: &Vec<GadgetSet>, instrs: &Vec<Instruction>, hi: usize) -> (r: bool)
    requires
        hi <= sets.len(),
    ensures
        r == in_some_upto(sets@, kinds_of(instrs@), hi as int),
{
    let mut j: usize = 0;
    while j < hi
        invariant
            0 <= j <= hi <= sets.len(),
            forall|t: int| 0 <= t < j ==> !(#[trigger] sets[t]).has_key(kinds_of(instrs@)),
        decreases hi - j,
    {
        match sets[j].find_key_index(instrs) {
            Some(i) => {
                proof {
                    assert(sets[j as int].has_key(kinds_of(instrs@)));
                }
                return true;
            },
            None => {},
        }
        j = j + 1;
    }
    false
}

/// Folds every occurrence record of `src` into `dst` (same canonical
/// key assumed by the caller; this routine only moves numbers).
fn absorb_occurrences(dst: &mut Gadget, src: &Gadget)
    requires
        old(dst).wf(),
        src.occs_wf(),
    ensures
        final(dst).wf(),
        final(dst).instructions == old(dst).instructions,
        forall|b: u64, a: u64|
            final(dst).occ_contains(b, a) <==> old(dst).occ_contains(b, a) || src.occ_contains(
                b,
                a,
            ),
        forall|b: u64|
            final(dst).occ_has_bin(b) <==> old(dst).occ_has_bin(b) || src.occ_has_bin(b),
{
    let n = src.occurs_in.len();
    let mut i: usize = 0;
    while i < n
        invariant
            dst.wf(),
            dst.instructions == old(dst).instructions,
            0 <= i <= n,
            n == src.occurs_in.len(),
            src.occs_wf(),
            forall|b: u64, a: u64|
                dst.occ_contains(b, a) <==> old(dst).occ_contains(b, a) || exists|i2: int|
                    0 <= i2 < i && (#[trigger] src.occurs_in[i2]).0 == b
                        && src.occurs_in[i2].1@.contains(a),
            forall|b: u64|
                dst.occ_has_bin(b) <==> old(dst).occ_has_bin(b) || exists|i2: int|
                    0 <= i2 < i && (#[trigger] src.occurs_in[i2]).0 == b,
        decreases n - i,
    {
        let bin = src.occurs_in[i].0;
        let m = src.occurs_in[i].1.len();
        let mut p: usize = 0;
        while p < m
            invariant
                dst.wf(),
                dst.instructions == old(dst).instructions,
                0 <= i < n,
                0 <= p <= m,
                n == src.occurs_in.len(),
                m == src.occurs_in[i as int].1.len(),
                bin == src.occurs_in[i as int].0,
                src.occs_wf(),
                forall|b: u64, a: u64|
                    dst.occ_contains(b, a) <==> old(dst).occ_contains(b, a) || (exists|i2: int|
                        0 <= i2 < i && (#[trigger] src.occurs_in[i2]).0 == b
                            && src.occurs_in[i2].1@.contains(a)) || (b == bin && exists|p2: int|
                        0 <= p2 < p && src.occurs_in[i as int].1[p2] == a),
                forall|b: u64|
                    dst.occ_has_bin(b) <==> old(dst).occ_has_bin(b) || (exists|i2: int|
                        0 <= i2 < i && (#[trigger] src.occurs_in[i2]).0 == b) || (b == bin && p
                        > 0),
            decreases m - p,
        {
            let addr = src.occurs_in[i].1[p];
            dst.record_occurrence(bin, addr);
            proof {
                assert(src.occurs_in[i as int].1[p as int] == addr);
            }
            p = p + 1;
        }
        proof {
            // one whole source group folded in
            assert forall|b: u64, a: u64|
                dst.occ_contains(b, a) <==> old(dst).occ_contains(b, a) || exists|i2: int|
                    0 <= i2 < i + 1 && (#[trigger] src.occurs_in[i2]).0 == b
                        && src.occurs_in[i2].1@.contains(a) by {
                if dst.occ_contains(b, a) && !old(dst).occ_contains(b, a) {
                    if b == bin && exists|p2: int|
                        0 <= p2 < m && src.occurs_in[i as int].1[p2] == a {
                        assert(src.occurs_in[i as int].1@.contains(a));
                    }
                }
                if exists|i2: int|
                    0 <= i2 < i + 1 && (#[trigger] src.occurs_in[i2]).0 == b
                        && src.occurs_in[i2].1@.contains(a) {
                    let i2 = choose|i2: int|
                        0 <= i2 < i + 1 && (#[trigger] src.occurs_in[i2]).0 == b
                            && src.occurs_in[i2].1@.contains(a);
                    if i2 == i {
                        let p2 = choose|p2: int|
                            0 <= p2 < m && src.occurs_in[i as int].1[p2] == a;
                        assert(dst.occ_contains(b, a));
                    }
                }
            }
            assert forall|b: u64|
                dst.occ_has_bin(b) <==> old(dst).occ_has_bin(b) || exists|i2: int|
                    0 <= i2 < i + 1 && (#[trigger] src.occurs_in[i2]).0 == b by {
                if exists|i2: int| 0 <= i2 < i + 1 && (#[trigger] src.occurs_in[i2]).0 == b {
                    let i2 = choose|i2: int|
                        0 <= i2 < i + 1 && (#[trigger] src.occurs_in[i2]).0 == b;
                    if i2 == i {
                        assert(m > 0);
                        assert(dst.occ_has_bin(b));
                    }
                }
            }
        }
        i = i + 1;
    }
    proof {
        assert forall|b: u64, a: u64|
            dst.occ_contains(b, a) <==> old(dst).occ_contains(b, a) || src.occ_contains(b, a) by {
            if src.occ_contains(b, a) {
                let i2 = choose|i2: int|
                    0 <= i2 < src.occurs_in.len() && src.occurs_in[i2].0 == b
                        && src.occurs_in[i2].1@.contains(a);
                assert((src.occurs_in[i2]).0 == b && src.occurs_in[i2].1@.contains(a));
            }
        }
        assert forall|b: u64|
            dst.occ_has_bin(b) <==> old(dst).occ_has_bin(b) || src.occ_has_bin(b) by {
            if src.occ_has_bin(b) {
                let i2 = choose|i2: int|
                    0 <= i2 < src.occurs_in.len() && src.occurs_in[i2].0 == b;
                assert((src.occurs_in[i2]).0 == b);
            }
        }
    }
}

/// Folds into `g` every occurrence that the sets at index `from` or later
/// record under `g`'s canonical key.
#[verifier::rlimit(60)]
#[verifier::spinoff_prover]
fn absorb_from_sets(g: &mut Gadget, sets: &Vec<GadgetSet>, from: usize)
    requires
        old(g).wf(),
        from <= sets.len(),
        forall|j: int| 0 <= j < sets.len() ==> (#[trigger] sets[j]).wf(),
    ensures
        final(g).wf(),
        final(g).instructions == old(g).instructions,
        forall|b: u64, a: u64|
            final(g).occ_contains(b, a) <==> old(g).occ_contains(b, a) || some_occ_from(
                sets@,
                old(g).key(),
                b,
                a,
                from as int,
            ),
        forall|b: u64|
            final(g).occ_has_bin(b) <==> old(g).occ_has_bin(b) || some_occ_bin_from(
                sets@,
                old(g).key(),
                b,
                from as int,
            ),
{
    let n = sets.len();
    let mut j: usize = from;
    while j < n
        invariant
            g.wf(),
            g.instructions == old(g).instructions,
            from <= j <= n,
            n == sets.len(),
            forall|j2: int| 0 <= j2 < sets.len() ==> (#[trigger] sets[j2]).wf(),
            forall|b: u64, a: u64|
                g.occ_contains(b, a) <==> old(g).occ_contains(b, a) || exists|j2: int|
                    from <= j2 < j && (#[trigger] sets[j2]).occ_contains(old(g).key(), b, a),
            forall|b: u64|
                g.occ_has_bin(b) <==> old(g).occ_has_bin(b) || exists|j2: int|
                    from <= j2 < j && (#[trigger] sets[j2]).occ_has_bin(old(g).key(), b),
        decreases n - j,
    {
        let ghost k = old(g).key();
        let ghost pre = *g;
        match sets[j].find_key_index(&g.instructions) {
            Some(idx) => {
                let entry = sets[j].get(idx);
                absorb_occurrences(g, entry);
                proof {
                    let sj = sets@[j as int];
                    assert(sj.entries[idx as int].key() == k);
                    assert forall|b: u64, a: u64|
                        sj.occ_contains(k, b, a) <==> sj.entries[idx as int].occ_contains(
                            b,
                            a,
                        ) by {
                        if sj.occ_contains(k, b, a) {
                            let t = choose|t: int|
                                0 <= t < sj.entries.len() && sj.entries[t].key() == k
                                    && sj.entries[t].occ_contains(b, a);
                            assert(t == idx);
                        }
                    }
                    assert forall|b: u64|
                        sj.occ_has_bin(k, b) <==> sj.entries[idx as int].occ_has_bin(b) by {
                        if sj.occ_has_bin(k, b) {
                            let t = choose|t: int|
                                0 <= t < sj.entries.len() && sj.entries[t].key() == k
                                    && sj.entries[t].occ_has_bin(b);
                            assert(t == idx);
                        }
                    }
                    assert forall|b: u64, a: u64|
                        g.occ_contains(b, a) <==> old(g).occ_contains(b, a) || exists|j2: int|
                            from <= j2 < j + 1 && (#[trigger] sets@[j2]).occ_contains(
                                k,
                                b,
                                a,
                            ) by {
                        if g.occ_contains(b, a) && !pre.occ_contains(b, a) {
                            assert(sj.occ_contains(k, b, a));
                            assert((sets@[j as int]).occ_contains(k, b, a));
                        }
                        if exists|j2: int|
                            from <= j2 < j + 1 && (#[trigger] sets@[j2]).occ_contains(k, b, a) {
                            let j2 = choose|j2: int|
                                from <= j2 < j + 1 && (#[trigger] sets@[j2]).occ_contains(
                                    k,
                                    b,
                                    a,
                                );
                            if j2 == j {
                                assert(g.occ_contains(b, a));
                            } else {
                                assert(pre.occ_contains(b, a));
                            }
                        }
                    }
                    assert forall|b: u64|
                        g.occ_has_bin(b) <==> old(g).occ_has_bin(b) || exists|j2: int|
                            from <= j2 < j + 1 && (#[trigger] sets@[j2]).occ_has_bin(k, b) by {
                        if g.occ_has_bin(b) && !pre.occ_has_bin(b) {
                            assert(sj.occ_has_bin(k, b));
                            assert((sets@[j as int]).occ_has_bin(k, b));
                        }
                        if exists|j2: int|
                            from <= j2 < j + 1 && (#[trigger] sets@[j2]).occ_has_bin(k, b) {
                            let j2 = choose|j2: int|
                                from <= j2 < j + 1 && (#[trigger] sets@[j2]).occ_has_bin(k, b);
                            if j2 == j {
                                assert(g.occ_has_bin(b));
                            } else {
                                assert(pre.occ_has_bin(b));
                            }
                        }
                    }
                }
            },
            None => {
                proof {
                    let sj = sets@[j as int];
                    assert(!sj.has_key(k));
                    assert forall|b: u64, a: u64| !sj.occ_contains(k, b, a) by {
                        if sj.occ_contains(k, b, a) {
                            let t = choose|t: int|
                                0 <= t < sj.entries.len() && sj.entries[t].key() == k
                                    && sj.entries[t].occ_contains(b, a);
                            assert(sj.has_key(k));
                        }
                    }
                    assert forall|b: u64| !sj.occ_has_bin(k, b) by {
                        if sj.occ_has_bin(k, b) {
                            let t = choose|t: int|
                                0 <= t < sj.entries.len() && sj.entries[t].key() == k
                                    && sj.entries[t].occ_has_bin(b);
                            assert(sj.has_key(k));
                        }
                    }
                    assert forall|b: u64, a: u64|
                        g.occ_contains(b, a) <==> old(g).occ_contains(b, a) || exists|j2: int|
                            from <= j2 < j + 1 && (#[trigger] sets@[j2]).occ_contains(
                                k,
                                b,
                                a,
                            ) by {
                        if exists|j2: int|
                            from <= j2 < j + 1 && (#[trigger] sets@[j2]).occ_contains(k, b, a) {
                            let j2 = choose|j2: int|
                                from <= j2 < j + 1 && (#[trigger] sets@[j2]).occ_contains(
                                    k,
                                    b,
                                    a,
                                );
                            assert(j2 != j);
                        }
                    }
                    assert forall|b: u64|
                        g.occ_has_bin(b) <==> old(g).occ_has_bin(b) || exists|j2: int|
                            from <= j2 < j + 1 && (#[trigger] sets@[j2]).occ_has_bin(k, b) by {
                        if exists|j2: int|
                            from <= j2 < j + 1 && (#[trigger] sets@[j2]).occ_has_bin(k, b) {
                            let j2 = choose|j2: int|
                                from <= j2 < j + 1 && (#[trigger] sets@[j2]).occ_has_bin(k, b);
                            assert(j2 != j);
                        }
                    }
                }
            },
        }
        j = j + 1;
    }
}

/// Some entry of `s` has canonical key `k`.
pub open spec fn entries_has_key(s: Seq<Gadget>, k: Seq<InstrKind>) -> bool {
    exists|i: int| 0 <= i < s.len() && (#[trigger] s[i]).key() == k
}

/// The entry of `s` with key `k` records address `a` in binary `b`.
pub open spec fn entries_occ(s: Seq<Gadget>, k: Seq<InstrKind>, b: u64, a: u64) -> bool {
    exists|i: int| 0 <= i < s.len() && (#[trigger] s[i]).key() == k && s[i].occ_contains(b, a)
}

/// The entry of `s` with key `k` records an occurrence in binary `b`.
pub open spec fn entries_occ_bin(s: Seq<Gadget>, k: Seq<InstrKind>, b: u64) -> bool {
    exists|i: int| 0 <= i < s.len() && (#[trigger] s[i]).key() == k && s[i].occ_has_bin(b)
}

/// Exact description of a full match over nonempty `sets`: the keys are
/// those present in every input, and the occurrence records are the union
/// of every input's records for the key.
pub open spec fn full_post(m: GadgetSet, sets: Seq<GadgetSet>) -> bool {
    &&& m.wf()
    &&& forall|k: Seq<InstrKind>| #[trigger] m.has_key(k) <==> in_all(sets, k)
    &&& forall|k: Seq<InstrKind>, b: u64, a: u64|
        #[trigger] m.occ_contains(k, b, a) <==> in_all(sets, k) && some_occ_from(sets, k, b, a, 0)
    &&& forall|k: Seq<InstrKind>, b: u64|
        #[trigger] m.occ_has_bin(k, b) <==> in_all(sets, k) && some_occ_bin_from(sets, k, b, 0)
}

/// Exact description of a partial match: the keys present in at least one
/// but not every input, occurrence records merged the same way.
pub open spec fn partial_post(m: GadgetSet, sets: Seq<GadgetSet>) -> bool {
    &&& m.wf()
    &&& forall|k: Seq<InstrKind>|
        #[trigger] m.has_key(k) <==> in_some(sets, k) && !in_all(sets, k)
    &&& forall|k: Seq<InstrKind>, b: u64, a: u64|
        #[trigger] m.occ_contains(k, b, a) <==> in_some(sets, k) && !in_all(sets, k)
            && some_occ_from(sets, k, b, a, 0)
    &&& forall|k: Seq<InstrKind>, b: u64|
        #[trigger] m.occ_has_bin(k, b) <==> in_some(sets, k) && !in_all(sets, k)
            && some_occ_bin_from(sets, k, b, 0)
}

/// Every entry of `m` carries the instruction model of some input entry.
pub open spec fn entries_from_inputs(m: Seq<Gadget>, sets: Seq<GadgetSet>) -> bool {
    forall|i: int|
        0 <= i < m.len() ==> exists|j: int, t: int|
            0 <= j < sets.len() && 0 <= t < sets[j].entries.len() && same_instrs(
                (#[trigger] m[i]).instructions@,
                sets[j].entries[t].instructions@,
            )
}

/// A fresh gadget carrying the instruction model of `e` and no occurrence
/// records yet.
fn clone_bare_gadget(e: &Gadget) -> (r: Gadget)
    requires
        e.wf(),
    ensures
        r.wf(),
        r.key() == e.key(),
        same_instrs(r.instructions@, e.instructions@),
        forall|b: u64, a: u64| !r.occ_contains(b, a),
        forall|b: u64| !r.occ_has_bin(b),
{
    let instrs = clone_instructions(&e.instructions);
    let g = Gadget { instructions: instrs, occurs_in: Vec::new() };
    proof {
        lemma_same_instrs_model(g.instructions@, e.instructions@);
        assert forall|i: int| 0 <= i < g.instructions.len() implies (
        #[trigger] g.instructions[i]).wf() by {
            assert(e.instructions[i].wf());
        }
        assert(g.wf());
    }
    g
}

/// Computes the full match over the given per-binary gadget sets: the
/// gadgets whose canonical key is present in every input, with the
/// occurrence records of all inputs merged per key. An empty query is a
/// usage error, never guessed around.
pub fn cross_reference_full(sets: &Vec<GadgetSet>) -> (r: Result<MatchResult, EngineError>)
    requires
        forall|j: int| 0 <= j < sets.len() ==> (#[trigger] sets[j]).wf(),
    ensures
        r is Ok <==> sets.len() > 0,
        r is Err ==> r->Err_0 == EngineError::NoBinaries,
        r is Ok ==> {
            let m = r->Ok_0;
            &&& m.kind == MatchKind::Full
            &&& full_post(m.set, sets@)
            &&& entries_from_inputs(m.set.entries@, sets@)
        },
{
    if sets.len() == 0 {
        return Err(EngineError::NoBinaries);
    }
    let ghost s0 = sets@[0];
    let first = &sets[0];
    let n = first.entries.len();
    let mut out: Vec<Gadget> = Vec::new();
    let mut t: usize = 0;
    while t < n
        invariant
            sets.len() > 0,
            s0 == sets@[0],
            n == s0.entries.len(),
            first == &sets[0],
            0 <= t <= n,
            forall|j: int| 0 <= j < sets.len() ==> (#[trigger] sets[j]).wf(),
            forall|i: int| 0 <= i < out.len() ==> (#[trigger] out[i]).wf(),
            forall|i1: int, i2: int| 0 <= i1 < i2 < out.len() ==> out[i1].key() != out[i2].key(),
            entries_from_inputs(out@, sets@),
            forall|k: Seq<InstrKind>|
                entries_has_key(out@, k) <==> (exists|t2: int|
                    0 <= t2 < t && (#[trigger] s0.entries[t2]).key() == k) && in_all(sets@, k),
            forall|k: Seq<InstrKind>, b: u64, a: u64|
                entries_occ(out@, k, b, a) <==> ((exists|t2: int|
                    0 <= t2 < t && (#[trigger] s0.entries[t2]).key() == k) && in_all(sets@, k)
                    && some_occ_from(sets@, k, b, a, 0)),
            forall|k: Seq<InstrKind>, b: u64|
                entries_occ_bin(out@, k, b) <==> ((exists|t2: int|
                    0 <= t2 < t && (#[trigger] s0.entries[t2]).key() == k) && in_all(sets@, k)
                    && some_occ_bin_from(sets@, k, b, 0)),
        decreases n - t,
    {
        let e = first.get(t);
        let ghost ke = e.key();
        if all_have_key(sets, &e.instructions) {
            let mut g = clone_bare_gadget(e);
            absorb_from_sets(&mut g, sets, 0);
            let ghost pre_out = out@;
            out.push(g);
            proof {
                assert(g.key() == ke);
                lemma_push_updates(pre_out, out@, g, ke, sets@);
                assert forall|k: Seq<InstrKind>|
                    entries_has_key(out@, k) <==> (exists|t2: int|
                        0 <= t2 < t + 1 && (#[trigger] s0.entries[t2]).key() == k) && in_all(
                        sets@,
                        k,
                    ) by {
                    if entries_has_key(out@, k) {
                        if k == ke {
                            assert(s0.entries[t as int].key() == k);
                        } else {
                            assert(entries_has_key(pre_out, k));
                            let t2 = choose|t2: int|
                                0 <= t2 < t && (#[trigger] s0.entries[t2]).key() == k;
                            assert(0 <= t2 < t + 1);
                        }
                    }
                    if (exists|t2: int| 0 <= t2 < t + 1 && (#[trigger] s0.entries[t2]).key() == k)
                        && in_all(sets@, k) {
                        let t2 = choose|t2: int|
                            0 <= t2 < t + 1 && (#[trigger] s0.entries[t2]).key() == k;
                        if t2 < t {
                            assert(entries_has_key(pre_out, k));
                        } else {
                            assert(k == ke);
                        }
                    }
                }
                assert forall|k: Seq<InstrKind>, b: u64, a: u64|
                    entries_occ(out@, k, b, a) <==> ((exists|t2: int|
                        0 <= t2 < t + 1 && (#[trigger] s0.entries[t2]).key() == k) && in_all(
                        sets@,
                        k,
                    ) && some_occ_from(sets@, k, b, a, 0)) by {
                    if entries_occ(out@, k, b, a) {
                        if k == ke {
                            assert(s0.entries[t as int].key() == k);
                        } else {
                            assert(entries_occ(pre_out, k, b, a));
                            let t2 = choose|t2: int|
                                0 <= t2 < t && (#[trigger] s0.entries[t2]).key() == k;
                            assert(0 <= t2 < t + 1);
                        }
                    }
                    if (exists|t2: int| 0 <= t2 < t + 1 && (#[trigger] s0.entries[t2]).key() == k)
                        && in_all(sets@, k) && some_occ_from(sets@, k, b, a, 0) {
                        let t2 = choose|t2: int|
                            0 <= t2 < t + 1 && (#[trigger] s0.entries[t2]).key() == k;
                        if t2 < t {
                            assert(entries_occ(pre_out, k, b, a));
                        } else {
                            assert(k == ke);
                            assert(g.occ_contains(b, a));
                            assert(out@[pre_out.len() as int].key() == k);
                        }
                    }
                }
                assert forall|k: Seq<InstrKind>, b: u64|
                    entries_occ_bin(out@, k, b) <==> ((exists|t2: int|
                        0 <= t2 < t + 1 && (#[trigger] s0.entries[t2]).key() == k) && in_all(
                        sets@,
                        k,
                    ) && some_occ_bin_from(sets@, k, b, 0)) by {
                    if entries_occ_bin(out@, k, b) {
                        if k == ke {
                            assert(s0.entries[t as int].key() == k);
                        } else {
                            assert(entries_occ_bin(pre_out, k, b));
                            let t2 = choose|t2: int|
                                0 <= t2 < t && (#[trigger] s0.entries[t2]).key() == k;
                            assert(0 <= t2 < t + 1);
                        }
                    }
                    if (exists|t2: int| 0 <= t2 < t + 1 && (#[trigger] s0.entries[t2]).key() == k)
                        && in_all(sets@, k) && some_occ_bin_from(sets@, k, b, 0) {
                        let t2 = choose|t2: int|
                            0 <= t2 < t + 1 && (#[trigger] s0.entries[t2]).key() == k;
                        if t2 < t {
                            assert(entries_occ_bin(pre_out, k, b));
                        } else {
                            assert(k == ke);
                            assert(g.occ_has_bin(b));
                            assert(out@[pre_out.len() as int].key() == k);
                        }
                    }
                }
                assert(same_instrs(g.instructions@, s0.entries[t as int].instructions@));
                assert forall|i: int| 0 <= i < out.len() implies exists|j2: int, t2: int|
                    0 <= j2 < sets@.len() && 0 <= t2 < sets@[j2].entries.len() && same_instrs(
                        (#[trigger] out@[i]).instructions@,
                        sets@[j2].entries[t2].instructions@,
                    ) by {
                    if i < pre_out.len() {
                        assert(out@[i] == pre_out[i]);
                    } else {
                        assert(same_instrs(
                            out@[i].instructions@,
                            sets@[0].entries[t as int].instructions@,
                        ));
                    }
                }
            }
        } else {
            proof {
                assert forall|k: Seq<InstrKind>|
                    ((exists|t2: int| 0 <= t2 < t + 1 && (#[trigger] s0.entries[t2]).key() == k)
                        && in_all(sets@, k)) implies ((exists|t2: int|
                        0 <= t2 < t && (#[trigger] s0.entries[t2]).key() == k) && in_all(
                        sets@,
                        k,
                    )) by {
                    let t2 = choose|t2: int|
                        0 <= t2 < t + 1 && (#[trigger] s0.entries[t2]).key() == k;
                    assert(t2 != t);
                }
            }
        }
        t = t + 1;
    }
    proof {
        assert forall|k: Seq<InstrKind>|
            ((exists|t2: int| 0 <= t2 < n && (#[trigger] s0.entries[t2]).key() == k) && in_all(
                sets@,
                k,
            )) <==> in_all(sets@, k) by {
            if in_all(sets@, k) {
                assert(s0.has_key(k));
                let t2 = choose|t2: int|
                    0 <= t2 < s0.entries.len() && s0.entries[t2].key() == k;
                assert(s0.entries[t2].key() == k);
            }
        }
    }
    let result = GadgetSet { entries: out };
    proof {
        lemma_entries_views(result);
        assert(result.wf());
    }
    Ok(MatchResult { kind: MatchKind::Full, set: result })
}

/// A set's key and occurrence views coincide with those of its entry
/// sequence.
proof fn lemma_entries_views(m: GadgetSet)
    ensures
        forall|k: Seq<InstrKind>| #[trigger] m.has_key(k) <==> entries_has_key(m.entries@, k),
        forall|k: Seq<InstrKind>, b: u64, a: u64|
            #[trigger] m.occ_contains(k, b, a) <==> entries_occ(m.entries@, k, b, a),
        forall|k: Seq<InstrKind>, b: u64|
            #[trigger] m.occ_has_bin(k, b) <==> entries_occ_bin(m.entries@, k, b),
{
    assert forall|k: Seq<InstrKind>|
        #[trigger] m.has_key(k) <==> entries_has_key(m.entries@, k) by {
        if m.has_key(k) {
            let i = choose|i: int| 0 <= i < m.entries.len() && m.entries[i].key() == k;
            assert(m.entries@[i].key() == k);
        }
        if entries_has_key(m.entries@, k) {
            let i = choose|i: int|
                0 <= i < m.entries@.len() && (#[trigger] m.entries@[i]).key() == k;
            assert(m.entries[i].key() == k);
        }
    }
    assert forall|k: Seq<InstrKind>, b: u64, a: u64|
        #[trigger] m.occ_contains(k, b, a) <==> entries_occ(m.entries@, k, b, a) by {
        if m.occ_contains(k, b, a) {
            let i = choose|i: int|
                0 <= i < m.entries.len() && m.entries[i].key() == k && m.entries[i].occ_contains(
                    b,
                    a,
                );
            assert(m.entries@[i].key() == k && m.entries@[i].occ_contains(b, a));
        }
        if entries_occ(m.entries@, k, b, a) {
            let i = choose|i: int|
                0 <= i < m.entries@.len() && (#[trigger] m.entries@[i]).key() == k
                    && m.entries@[i].occ_contains(b, a);
            assert(m.entries[i].key() == k && m.entries[i].occ_contains(b, a));
        }
    }
    assert forall|k: Seq<InstrKind>, b: u64|
        #[trigger] m.occ_has_bin(k, b) <==> entries_occ_bin(m.entries@, k, b) by {
        if m.occ_has_bin(k, b) {
            let i = choose|i: int|
                0 <= i < m.entries.len() && m.entries[i].key() == k && m.entries[i].occ_has_bin(
                    b,
                );
            assert(m.entries@[i].key() == k && m.entries@[i].occ_has_bin(b));
        }
        if entries_occ_bin(m.entries@, k, b) {
            let i = choose|i: int|
                0 <= i < m.entries@.len() && (#[trigger] m.entries@[i]).key() == k
                    && m.entries@[i].occ_has_bin(b);
            assert(m.entries[i].key() == k && m.entries[i].occ_has_bin(b));
        }
    }
}

/// After a push, membership facts shift by one index.
proof fn lemma_push_updates(
    pre: Seq<Gadget>,
    post: Seq<Gadget>,
    g: Gadget,
    ke: Seq<InstrKind>,
    sets: Seq<GadgetSet>,
)
    requires
        post == pre.push(g),
        g.key() == ke,
    ensures
        forall|k: Seq<InstrKind>|
            entries_has_key(post, k) <==> entries_has_key(pre, k) || k == ke,
        forall|k: Seq<InstrKind>, b: u64, a: u64|
            entries_occ(post, k, b, a) <==> entries_occ(pre, k, b, a) || (k == ke
                && g.occ_contains(b, a)),
        forall|k: Seq<InstrKind>, b: u64|
            entries_occ_bin(post, k, b) <==> entries_occ_bin(pre, k, b) || (k == ke
                && g.occ_has_bin(b)),
{
    let m = pre.len() as int;
    assert forall|k: Seq<InstrKind>|
        entries_has_key(post, k) <==> entries_has_key(pre, k) || k == ke by {
        if entries_has_key(post, k) {
            let i = choose|i: int| 0 <= i < post.len() && (#[trigger] post[i]).key() == k;
            if i < m {
                assert(pre[i].key() == k);
            }
        }
        if entries_has_key(pre, k) {
            let i = choose|i: int| 0 <= i < pre.len() && (#[trigger] pre[i]).key() == k;
            assert(post[i].key() == k);
        }
        if k == ke {
            assert(post[m].key() == k);
        }
    }
    assert forall|k: Seq<InstrKind>, b: u64, a: u64|
        entries_occ(post, k, b, a) <==> entries_occ(pre, k, b, a) || (k == ke && g.occ_contains(
            b,
            a,
        )) by {
        if entries_occ(post, k, b, a) {
            let i = choose|i: int|
                0 <= i < post.len() && (#[trigger] post[i]).key() == k && post[i].occ_contains(
                    b,
                    a,
                );
            if i < m {
                assert(pre[i].key() == k && pre[i].occ_contains(b, a));
            }
        }
        if entries_occ(pre, k, b, a) {
            let i = choose|i: int|
                0 <= i < pre.len() && (#[trigger] pre[i]).key() == k && pre[i].occ_contains(b, a);
            assert(post[i].key() == k && post[i].occ_contains(b, a));
        }
        if k == ke && g.occ_contains(b, a) {
            assert(post[m].key() == k && post[m].occ_contains(b, a));
        }
    }
    assert forall|k: Seq<InstrKind>, b: u64|
        entries_occ_bin(post, k, b) <==> entries_occ_bin(pre, k, b) || (k == ke && g.occ_has_bin(
            b,
        )) by {
        if entries_occ_bin(post, k, b) {
            let i = choose|i: int|
                0 <= i < post.len() && (#[trigger] post[i]).key() == k && post[i].occ_has_bin(b);
            if i < m {
                assert(pre[i].key() == k && pre[i].occ_has_bin(b));
            }
        }
        if entries_occ_bin(pre, k, b) {
            let i = choose|i: int|
                0 <= i < pre.len() && (#[trigger] pre[i]).key() == k && pre[i].occ_has_bin(b);
            assert(post[i].key() == k && post[i].occ_has_bin(b));
        }
        if k == ke && g.occ_has_bin(b) {
            assert(post[m].key() == k && post[m].occ_has_bin(b));
        }
    }
}

/// Computes the partial match over the given per-binary gadget sets: the
/// gadgets whose canonical key is present in at least one but not every
/// input, with the occurrence records of all inputs merged per key — so
/// each result gadget records exactly which binaries contain it. An empty
/// query is a usage error, never guessed around.
#[verifier::rlimit(60)]
#[verifier::spinoff_prover]
pub fn cross_reference_partial(sets: &Vec<GadgetSet>) -> (r: Result<MatchResult, EngineError>)
    requires
        forall|j: int| 0 <= j < sets.len() ==> (#[trigger] sets[j]).wf(),
    ensures
        r is Ok <==> sets.len() > 0,
        r is Err ==> r->Err_0 == EngineError::NoBinaries,
        r is Ok ==> {
            let m = r->Ok_0;
            &&& m.kind == MatchKind::Partial
            &&& partial_post(m.set, sets@)
            &&& entries_from_inputs(m.set.entries@, sets@)
        },
{
    if sets.len() == 0 {
        return Err(EngineError::NoBinaries);
    }
    let n = sets.len();
    let mut out: Vec<Gadget> = Vec::new();
    let mut j: usize = 0;
    while j < n
        invariant
            n == sets.len(),
            0 <= j <= n,
            forall|j2: int| 0 <= j2 < sets.len() ==> (#[trigger] sets[j2]).wf(),
            forall|i: int| 0 <= i < out.len() ==> (#[trigger] out[i]).wf(),
            forall|i1: int, i2: int| 0 <= i1 < i2 < out.len() ==> out[i1].key() != out[i2].key(),
            entries_from_inputs(out@, sets@),
            forall|k: Seq<InstrKind>|
                entries_has_key(out@, k) <==> in_some_upto(sets@, k, j as int) && !in_all(
                    sets@,
                    k,
                ),
            forall|k: Seq<InstrKind>, b: u64, a: u64|
                entries_occ(out@, k, b, a) <==> in_some_upto(sets@, k, j as int) && !in_all(
                    sets@,
                    k,
                ) && some_occ_from(sets@, k, b, a, 0),
            forall|k: Seq<InstrKind>, b: u64|
                entries_occ_bin(out@, k, b) <==> in_some_upto(sets@, k, j as int) && !in_all(
                    sets@,
                    k,
                ) && some_occ_bin_from(sets@, k, b, 0),
        decreases n - j,
    {
        let ghost sj = sets@[j as int];
        let m = sets[j].len();
        let mut t: usize = 0;
        while t < m
            invariant
                n == sets.len(),
                0 <= j < n,
                sj == sets@[j as int],
                m == sj.entries.len(),
                0 <= t <= m,
                forall|j2: int| 0 <= j2 < sets.len() ==> (#[trigger] sets[j2]).wf(),
                forall|i: int| 0 <= i < out.len() ==> (#[trigger] out[i]).wf(),
                forall|i1: int, i2: int|
                    0 <= i1 < i2 < out.len() ==> out[i1].key() != out[i2].key(),
                entries_from_inputs(out@, sets@),
                forall|k: Seq<InstrKind>|
                    entries_has_key(out@, k) <==> (in_some_upto(sets@, k, j as int) || exists|
                        t2: int,
                    |
                        0 <= t2 < t && (#[trigger] sj.entries[t2]).key() == k) && !in_all(
                        sets@,
                        k,
                    ),
                forall|k: Seq<InstrKind>, b: u64, a: u64|
                    entries_occ(out@, k, b, a) <==> (in_some_upto(sets@, k, j as int) || exists|
                        t2: int,
                    |
                        0 <= t2 < t && (#[trigger] sj.entries[t2]).key() == k) && !in_all(
                        sets@,
                        k,
                    ) && some_occ_from(sets@, k, b, a, 0),
                forall|k: Seq<InstrKind>, b: u64|
                    entries_occ_bin(out@, k, b) <==> (in_some_upto(sets@, k, j as int) || exists|
                        t2: int,
                    |
                        0 <= t2 < t && (#[trigger] sj.entries[t2]).key() == k) && !in_all(
                        sets@,
                        k,
                    ) && some_occ_bin_from(sets@, k, b, 0),
            decreases m - t,
        {
            let e = sets[j].get(t);
            let ghost ke = e.key();
            proof {
                assert(sj.entries[t as int].key() == ke);
            }
            let skip_seen = any_have_key_below(sets, &e.instructions, j);
            let skip_full = if skip_seen {
                true
            } else {
                all_have_key(sets, &e.instructions)
            };
            if !skip_seen && !skip_full {
                let mut g = clone_bare_gadget(e);
                absorb_from_sets(&mut g, sets, 0);
                let ghost pre_out = out@;
                proof {
                    // the key cannot be in `out` yet: not in an earlier
                    // set, and earlier entries of this set have other keys
                    if entries_has_key(pre_out, ke) {
                        let t2 = choose|t2: int|
                            0 <= t2 < t && (#[trigger] sj.entries[t2]).key() == ke;
                        assert(false);
                    }
                }
                out.push(g);
                proof {
                    assert(g.key() == ke);
                    lemma_push_updates(pre_out, out@, g, ke, sets@);
                    assert(sj.has_key(ke));
                    assert(in_some_upto(sets@, ke, j + 1));
                    assert(in_some_upto(sets@, ke, n as int)) by {
                        let j2 = choose|j2: int|
                            0 <= j2 < j + 1 && (#[trigger] sets@[j2]).has_key(ke);
                        assert(0 <= j2 < n);
                    }
                    assert forall|k: Seq<InstrKind>|
                        entries_has_key(out@, k) <==> (in_some_upto(sets@, k, j as int) || exists|
                            t2: int,
                        |
                            0 <= t2 < t + 1 && (#[trigger] sj.entries[t2]).key() == k) && !in_all(
                            sets@,
                            k,
                        ) by {
                        if k == ke {
                            assert(sj.entries[t as int].key() == k);
                        } else {
                            if entries_has_key(out@, k) {
                                assert(entries_has_key(pre_out, k));
                            }
                            if (in_some_upto(sets@, k, j as int) || exists|t2: int|
                                0 <= t2 < t + 1 && (#[trigger] sj.entries[t2]).key() == k)
                                && !in_all(sets@, k) {
                                if !in_some_upto(sets@, k, j as int) {
                                    let t2 = choose|t2: int|
                                        0 <= t2 < t + 1 && (#[trigger] sj.entries[t2]).key() == k;
                                    assert(t2 < t);
                                }
                                assert(entries_has_key(pre_out, k));
                            }
                        }
                    }
                    assert forall|k: Seq<InstrKind>, b: u64, a: u64|
                        entries_occ(out@, k, b, a) <==> (in_some_upto(sets@, k, j as int)
                            || exists|t2: int|
                            0 <= t2 < t + 1 && (#[trigger] sj.entries[t2]).key() == k) && !in_all(
                            sets@,
                            k,
                        ) && some_occ_from(sets@, k, b, a, 0) by {
                        if k == ke {
                            assert(sj.entries[t as int].key() == k);
                            assert(entries_occ(out@, k, b, a) <==> g.occ_contains(b, a)
                                || entries_occ(pre_out, k, b, a));
                            assert(!entries_has_key(pre_out, k));
                            if entries_occ(pre_out, k, b, a) {
                                let i = choose|i: int|
                                    0 <= i < pre_out.len() && (#[trigger] pre_out[i]).key() == k
                                        && pre_out[i].occ_contains(b, a);
                                assert(entries_has_key(pre_out, k));
                            }
                        } else {
                            if entries_occ(out@, k, b, a) {
                                assert(entries_occ(pre_out, k, b, a));
                            }
                            if (in_some_upto(sets@, k, j as int) || exists|t2: int|
                                0 <= t2 < t + 1 && (#[trigger] sj.entries[t2]).key() == k)
                                && !in_all(sets@, k) && some_occ_from(sets@, k, b, a, 0) {
                                if !in_some_upto(sets@, k, j as int) {
                                    let t2 = choose|t2: int|
                                        0 <= t2 < t + 1 && (#[trigger] sj.entries[t2]).key() == k;
                                    assert(t2 < t);
                                }
                                assert(entries_occ(pre_out, k, b, a));
                            }
                        }
                    }
                    assert forall|k: Seq<InstrKind>, b: u64|
                        entries_occ_bin(out@, k, b) <==> (in_some_upto(sets@, k, j as int)
                            || exists|t2: int|
                            0 <= t2 < t + 1 && (#[trigger] sj.entries[t2]).key() == k) && !in_all(
                            sets@,
                            k,
                        ) && some_occ_bin_from(sets@, k, b, 0) by {
                        if k == ke {
                            assert(sj.entries[t as int].key() == k);
                            assert(!entries_has_key(pre_out, k));
                            if entries_occ_bin(pre_out, k, b) {
                                let i = choose|i: int|
                                    0 <= i < pre_out.len() && (#[trigger] pre_out[i]).key() == k
                                        && pre_out[i].occ_has_bin(b);
                                assert(entries_has_key(pre_out, k));
                            }
                        } else {
                            if entries_occ_bin(out@, k, b) {
                                assert(entries_occ_bin(pre_out, k, b));
                            }
                            if (in_some_upto(sets@, k, j as int) || exists|t2: int|
                                0 <= t2 < t + 1 && (#[trigger] sj.entries[t2]).key() == k)
                                && !in_all(sets@, k) && some_occ_bin_from(sets@, k, b, 0) {
                                if !in_some_upto(sets@, k, j as int) {
                                    let t2 = choose|t2: int|
                                        0 <= t2 < t + 1 && (#[trigger] sj.entries[t2]).key() == k;
                                    assert(t2 < t);
                                }
                                assert(entries_occ_bin(pre_out, k, b));
                            }
                        }
                    }
                    assert(same_instrs(g.instructions@, sj.entries[t as int].instructions@));
                    assert forall|i: int| 0 <= i < out.len() implies exists|j2: int, t2: int|
                        0 <= j2 < sets@.len() && 0 <= t2 < sets@[j2].entries.len() && same_instrs(
                            (#[trigger] out@[i]).instructions@,
                            sets@[j2].entries[t2].instructions@,
                        ) by {
                        if i < pre_out.len() {
                            assert(out@[i] == pre_out[i]);
                        } else {
                            assert(same_instrs(
                                out@[i].instructions@,
                                sets@[j as int].entries[t as int].instructions@,
                            ));
                        }
                    }
                }
            } else {
                proof {
                    assert forall|k: Seq<InstrKind>|
                        ((in_some_upto(sets@, k, j as int) || exists|t2: int|
                            0 <= t2 < t + 1 && (#[trigger] sj.entries[t2]).key() == k) && !in_all(
                            sets@,
                            k,
                        )) implies ((in_some_upto(sets@, k, j as int) || exists|t2: int|
                            0 <= t2 < t && (#[trigger] sj.entries[t2]).key() == k) && !in_all(
                            sets@,
                            k,
                        )) by {
                        if !in_some_upto(sets@, k, j as int) {
                            let t2 = choose|t2: int|
                                0 <= t2 < t + 1 && (#[trigger] sj.entries[t2]).key() == k;
                            if t2 == t {
                                // this entry was skipped: either its key is in
                                // an earlier set, or it is in every set
                                assert(k == ke);
                                if skip_seen {
                                    assert(in_some_upto(sets@, k, j as int));
                                    assert(false);
                                } else {
                                    assert(in_all(sets@, k));
                                    assert(false);
                                }
                            }
                        }
                    }
                }
            }
            t = t + 1;
        }
        proof {
            assert forall|k: Seq<InstrKind>|
                (in_some_upto(sets@, k, j as int) || exists|t2: int|
                    0 <= t2 < m && (#[trigger] sj.entries[t2]).key() == k) <==> in_some_upto(
                    sets@,
                    k,
                    j + 1,
                ) by {
                if exists|t2: int| 0 <= t2 < m && (#[trigger] sj.entries[t2]).key() == k {
                    assert(sj.has_key(k));
                    assert(sets@[j as int].has_key(k));
                }
                if in_some_upto(sets@, k, j as int) {
                    let j2 = choose|j2: int| 0 <= j2 < j && (#[trigger] sets@[j2]).has_key(k);
                    assert(0 <= j2 < j + 1);
                }
                if in_some_upto(sets@, k, j + 1) {
                    let j2 = choose|j2: int| 0 <= j2 < j + 1 && (#[trigger] sets@[j2]).has_key(k);
                    if j2 == j {
                        assert(sj.has_key(k));
                        let t2 = choose|t2: int|
                            0 <= t2 < sj.entries.len() && sj.entries[t2].key() == k;
                        assert(sj.entries[t2].key() == k);
                    }
                }
            }
        }
        j = j + 1;
    }
    let result = GadgetSet { entries: out };
    proof {
        lemma_entries_views(result);
        assert(result.wf());
        assert forall|k: Seq<InstrKind>| in_some_upto(sets@, k, n as int) <==> in_some(
            sets@,
            k,
        ) by {}
    }
    Ok(MatchResult { kind: MatchKind::Partial, set: result })
}

/// Cross-reference correctness over per-binary inputs (each input set,
/// as a search produces it, records occurrences under its own binary
/// identifier alone, and records that identifier for every key it holds;
/// the identifiers are pairwise distinct). A full match holds a key
/// exactly when every binary has it, a partial match exactly when some
/// but not every binary has it, and a matched gadget's occurrence map
/// names exactly the binaries that contain its key.
pub proof fn lemma_cross_reference_domains(
    full: GadgetSet,
    part: GadgetSet,
    sets: Seq<GadgetSet>,
    ids: Seq<u64>,
    k: Seq<InstrKind>,
)
    requires
        sets.len() == ids.len(),
        sets.len() > 0,
        full_post(full, sets),
        partial_post(part, sets),
        forall|j1: int, j2: int| 0 <= j1 < j2 < ids.len() ==> ids[j1] != ids[j2],
        forall|j: int, k2: Seq<InstrKind>|
            0 <= j < sets.len() ==> ((#[trigger] sets[j].has_key(k2)) <==> sets[j].occ_has_bin(
                k2,
                ids[j],
            )),
        forall|j: int, k2: Seq<InstrKind>, b: u64|
            0 <= j < sets.len() && (#[trigger] sets[j].occ_has_bin(k2, b)) ==> b == ids[j],
    ensures
        full.has_key(k) <==> in_all(sets, k),
        part.has_key(k) <==> in_some(sets, k) && !in_all(sets, k),
        full.has_key(k) ==> forall|j: int|
            0 <= j < sets.len() ==> #[trigger] full.occ_has_bin(k, ids[j]),
        part.has_key(k) ==> forall|j: int|
            0 <= j < sets.len() ==> ((#[trigger] part.occ_has_bin(k, ids[j])) <==> sets[j].has_key(k)),
        forall|b: u64|
            #[trigger] part.occ_has_bin(k, b) ==> exists|j: int|
                0 <= j < sets.len() && b == ids[j] && sets[j].has_key(k),
{
    if full.has_key(k) {
        assert forall|j: int| 0 <= j < sets.len() implies #[trigger] full.occ_has_bin(
            k,
            ids[j],
        ) by {
            assert(sets[j].has_key(k));
            assert(sets[j].occ_has_bin(k, ids[j]));
            assert(some_occ_bin_from(sets, k, ids[j], 0));
        }
    }
    if part.has_key(k) {
        assert forall|j: int|
            0 <= j < sets.len() implies ((#[trigger] part.occ_has_bin(k, ids[j])) <==> sets[j].has_key(k)) by {
            if part.occ_has_bin(k, ids[j]) {
                let j2 = choose|j2: int|
                    0 <= j2 < sets.len() && (#[trigger] sets[j2]).occ_has_bin(k, ids[j]);
                assert(ids[j2] == ids[j]);
                assert(j2 == j);
                assert(sets[j].has_key(k));
            }
            if sets[j].has_key(k) {
                assert(sets[j].occ_has_bin(k, ids[j]));
                assert(some_occ_bin_from(sets, k, ids[j], 0));
            }
        }
    }
    assert forall|b: u64| #[trigger] part.occ_has_bin(k, b) implies exists|j: int|
        0 <= j < sets.len() && b == ids[j] && sets[j].has_key(k) by {
        assert(some_occ_bin_from(sets, k, b, 0));
        let j2 = choose|j2: int|
            0 <= j2 < sets.len() && (#[trigger] sets[j2]).occ_has_bin(k, b);
        assert(b == ids[j2]);
        assert(sets[j2].has_key(k));
    }
}

} // verus!
