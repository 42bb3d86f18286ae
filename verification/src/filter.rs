//! The filter engine: a composable chain of per-gadget predicates with AND
//! semantics.
//!
//! No rule mutates a gadget — filtering only removes set membership — so
//! rule chains commute: see [`lemma_filter_commutes`].

use vstd::prelude::*;

use crate::gadget::{sum_len, Gadget, GadgetSet};
use crate::insn::{is_stack_pivot, stack_pivot};

verus! {

/// One inclusion/exclusion predicate.
#[derive(Debug)]
pub enum FilterRule {
    /// Keep gadgets of at least this many instructions.
    MinInstrs(usize),
    /// Keep gadgets of at most this many instructions.
    MaxInstrs(usize),
    /// Keep gadgets of at least this many encoded bytes.
    MinBytes(u32),
    /// Keep gadgets of at most this many encoded bytes.
    MaxBytes(u32),
    /// Drop any gadget whose raw encoding contains one of these bytes
    /// (the classic forbidden-byte constraint, e.g. no NUL bytes).
    BadBytes(Vec<u8>),
    /// Drop gadgets containing a stack-pointer-modifying instruction.
    ExcludeStackPivot,
    /// Keep only gadgets containing a stack-pointer-modifying instruction.
    OnlyStackPivot,
}

/// Whether any instruction's raw encoding contains `byte`.
pub open spec fn gadget_has_byte(g: Gadget, byte: u8) -> bool {
    exists|i: int, p: int|
        0 <= i < g.instructions.len() && 0 <= p < g.instructions[i].bytes.len()
            && g.instructions[i].bytes[p] == byte
}

/// Whether any instruction's raw encoding contains one of the bytes.
pub open spec fn has_any_bad_byte(g: Gadget, bad: Seq<u8>) -> bool {
    exists|t: int| 0 <= t < bad.len() && gadget_has_byte(g, #[trigger] bad[t])
}

/// Whether some instruction modifies the stack pointer beyond the
/// implicit push/pop/return adjustment.
pub open spec fn has_stack_pivot(g: Gadget) -> bool {
    exists|i: int|
        0 <= i < g.instructions.len() && is_stack_pivot(#[trigger] g.instructions[i].kind)
}

/// Whether the gadget satisfies one rule.
pub open spec fn rule_passes(g: Gadget, r: FilterRule) -> bool {
    match r {
        FilterRule::MinInstrs(n) => g.instructions.len() >= n,
        FilterRule::MaxInstrs(n) => g.instructions.len() <= n,
        FilterRule::MinBytes(n) => sum_len(g.instructions@) >= n,
        FilterRule::MaxBytes(n) => sum_len(g.instructions@) <= n,
        FilterRule::BadBytes(bad) => !has_any_bad_byte(g, bad@),
        FilterRule::ExcludeStackPivot => !has_stack_pivot(g),
        FilterRule::OnlyStackPivot => has_stack_pivot(g),
    }
}

/// Whether the gadget satisfies every rule of the chain (AND semantics).
pub open spec fn passes_all(g: Gadget, rules: Seq<FilterRule>) -> bool {
    forall|t: int| 0 <= t < rules.len() ==> rule_passes(g, #[trigger] rules[t])
}

/// The entries that satisfy every rule, in their original order.
pub open spec fn spec_filter(s: Seq<Gadget>, rules: Seq<FilterRule>) -> Seq<Gadget>
    decreases s.len(),
{
    if s.len() == 0 {
        s
    } else {
        let rest = spec_filter(s.drop_first(), rules);
        if passes_all(s.first(), rules) {
            seq![s.first()] + rest
        } else {
            rest
        }
    }
}

/// Whether any instruction's raw encoding contains `byte`; agrees with
/// [`gadget_has_byte`].
fn gadget_contains_byte(g: &Gadget, byte: u8) -> (r: bool)
    ensures
        r == gadget_has_byte(*g, byte),
{
    let n = g.instructions.len();
    let mut i: usize = 0;
    while i < n
        invariant
            0 <= i <= n,
            n == g.instructions.len(),
            forall|i2: int, p2: int|
                0 <= i2 < i && 0 <= p2 < g.instructions[i2].bytes.len()
                    ==> g.instructions[i2].bytes[p2] != byte,
        decreases n - i,
    {
        let m = g.instructions[i].bytes.len();
        let mut p: usize = 0;
        while p < m
            invariant
                0 <= p <= m,
                i < n,
                n == g.instructions.len(),
                m == g.instructions[i as int].bytes.len(),
                forall|p2: int| 0 <= p2 < p ==> g.instructions[i as int].bytes[p2] != byte,
            decreases m - p,
        {
            if g.instructions[i].bytes[p] == byte {
                return true;
            }
            p = p + 1;
        }
        i = i + 1;
    }
    false
}

/// Whether the gadget satisfies one rule; agrees with [`rule_passes`].
pub fn check_rule(g: &Gadget, r: &FilterRule) -> (ok: bool)
    requires
        g.wf(),
    ensures
        ok == rule_passes(*g, *r),
{
    match r {
        FilterRule::MinInstrs(n) => g.instructions.len() >= *n,
        FilterRule::MaxInstrs(n) => g.instructions.len() <= *n,
        FilterRule::MinBytes(n) => g.byte_length() >= *n,
        FilterRule::MaxBytes(n) => g.byte_length() <= *n,
        FilterRule::BadBytes(bad) => {
            let m = bad.len();
            let mut t: usize = 0;
            while t < m
                invariant
                    0 <= t <= m,
                    m == bad.len(),
                    *r == FilterRule::BadBytes(*bad),
                    forall|t2: int| 0 <= t2 < t ==> !gadget_has_byte(*g, #[trigger] bad[t2]),
                decreases m - t,
            {
                if gadget_contains_byte(g, bad[t]) {
                    proof {
                        assert(gadget_has_byte(*g, bad@[t as int]));
                        assert(has_any_bad_byte(*g, bad@));
                    }
                    return false;
                }
                t = t + 1;
            }
            true
        },
        FilterRule::ExcludeStackPivot => {
            let n = g.instructions.len();
            let mut i: usize = 0;
            while i < n
                invariant
                    0 <= i <= n,
                    n == g.instructions.len(),
                    *r == FilterRule::ExcludeStackPivot,
                    forall|i2: int|
                        0 <= i2 < i ==> !is_stack_pivot(#[trigger] g.instructions[i2].kind),
                decreases n - i,
            {
                if stack_pivot(&g.instructions[i].kind) {
                    proof {
                        assert(is_stack_pivot(g.instructions@[i as int].kind));
                        assert(has_stack_pivot(*g));
                    }
                    return false;
                }
                i = i + 1;
            }
            true
        },
        FilterRule::OnlyStackPivot => {
            let n = g.instructions.len();
            let mut i: usize = 0;
            while i < n
                invariant
                    0 <= i <= n,
                    n == g.instructions.len(),
                    *r == FilterRule::OnlyStackPivot,
                    forall|i2: int|
                        0 <= i2 < i ==> !is_stack_pivot(#[trigger] g.instructions[i2].kind),
                decreases n - i,
            {
                if stack_pivot(&g.instructions[i].kind) {
                    proof {
                        assert(is_stack_pivot(g.instructions@[i as int].kind));
                        assert(has_stack_pivot(*g));
                    }
                    return true;
                }
                i = i + 1;
            }
            false
        },
    }
}

/// Whether the gadget satisfies every rule of the chain, evaluated in
/// order and short-circuiting on the first failure; agrees with
/// [`passes_all`].
pub fn check_all_rules(g: &Gadget, rules: &Vec<FilterRule>) -> (ok: bool)
    requires
        g.wf(),
    ensures
        ok == passes_all(*g, rules@),
{
    let m = rules.len();
    let mut t: usize = 0;
    while t < m
        invariant
            0 <= t <= m,
            m == rules.len(),
            g.wf(),
            forall|t2: int| 0 <= t2 < t ==> rule_passes(*g, #[trigger] rules[t2]),
        decreases m - t,
    {
        if !check_rule(g, &rules[t]) {
            return false;
        }
        t = t + 1;
    }
    true
}

/// Applies the rule chain: keeps exactly the gadgets that satisfy every
/// rule, untouched and in their original order, and drops the rest. The
/// input set is consumed; gadgets are never mutated by filtering.
pub fn filter_set(set: GadgetSet, rules: &Vec<FilterRule>) -> (r: GadgetSet)
    requires
        set.wf(),
    ensures
        r.wf(),
        r.entries@ == spec_filter(set.entries@, rules@),
{
    let mut src = set.entries;
    let mut out: Vec<Gadget> = Vec::new();
    while src.len() > 0
        invariant
            spec_filter(set.entries@, rules@) == out@ + spec_filter(src@, rules@),
            forall|i: int| 0 <= i < out.len() ==> (#[trigger] out[i]).wf(),
            forall|i: int| 0 <= i < src.len() ==> (#[trigger] src[i]).wf(),
            forall|i: int, j: int| 0 <= i < j < out.len() ==> out[i].key() != out[j].key(),
            forall|i: int, j: int| 0 <= i < j < src.len() ==> src[i].key() != src[j].key(),
            forall|i: int, j: int|
                0 <= i < out.len() && 0 <= j < src.len() ==> out[i].key() != src[j].key(),
        decreases src.len(),
    {
        let ghost pre_src = src@;
        let ghost pre_out = out@;
        let g = src.remove(0);
        proof {
            assert(pre_src.first() == g);
            assert(pre_src.drop_first() =~= src@);
        }
        if check_all_rules(&g, rules) {
            out.push(g);
            proof {
                assert(spec_filter(pre_src, rules@) == seq![g] + spec_filter(src@, rules@));
                assert(pre_out + (seq![g] + spec_filter(src@, rules@)) =~= out@ + spec_filter(
                    src@,
                    rules@,
                ));
            }
        } else {
            proof {
                assert(spec_filter(pre_src, rules@) == spec_filter(src@, rules@));
            }
        }
    }
    proof {
        assert(out@ + spec_filter(src@, rules@) =~= out@);
    }
    GadgetSet { entries: out }
}

/// Filter composition commutes: because no rule mutates a gadget,
/// filtering by one chain and then another keeps exactly the gadgets that
/// satisfy both, whichever chain is applied first.
pub proof fn lemma_filter_commutes(s: Seq<Gadget>, r1: Seq<FilterRule>, r2: Seq<FilterRule>)
    ensures
        spec_filter(spec_filter(s, r1), r2) == spec_filter(spec_filter(s, r2), r1),
    decreases s.len(),
{
    lemma_filter_both(s, r1, r2);
    lemma_filter_both(s, r2, r1);
    assert forall|g: Gadget|
        (passes_all(g, r1) && passes_all(g, r2)) == (passes_all(g, r2) && passes_all(
            g,
            r1,
        )) by {}
    lemma_filter_same(s, r1, r2);
}

/// Filtering twice keeps exactly the entries that satisfy both chains.
proof fn lemma_filter_both(s: Seq<Gadget>, r1: Seq<FilterRule>, r2: Seq<FilterRule>)
    ensures
        spec_filter(spec_filter(s, r1), r2) == spec_filter_and(s, r1, r2),
    decreases s.len(),
{
    if s.len() == 0 {
    } else {
        let rest = s.drop_first();
        lemma_filter_both(rest, r1, r2);
        if passes_all(s.first(), r1) {
            assert((seq![s.first()] + spec_filter(rest, r1)).first() == s.first());
            assert((seq![s.first()] + spec_filter(rest, r1)).drop_first() =~= spec_filter(
                rest,
                r1,
            ));
        }
    }
}

/// The entries that satisfy both chains at once.
spec fn spec_filter_and(s: Seq<Gadget>, r1: Seq<FilterRule>, r2: Seq<FilterRule>) -> Seq<Gadget>
    decreases s.len(),
{
    if s.len() == 0 {
        s
    } else {
        let rest = spec_filter_and(s.drop_first(), r1, r2);
        if passes_all(s.first(), r1) && passes_all(s.first(), r2) {
            seq![s.first()] + rest
        } else {
            rest
        }
    }
}

/// The combined keep-both filter does not care which chain is named first.
proof fn lemma_filter_same(s: Seq<Gadget>, r1: Seq<FilterRule>, r2: Seq<FilterRule>)
    ensures
        spec_filter_and(s, r1, r2) == spec_filter_and(s, r2, r1),
    decreases s.len(),
{
    if s.len() == 0 {
    } else {
        lemma_filter_same(s.drop_first(), r1, r2);
    }
}

} // verus!
