//! Gadgets, their occurrence records, and the deduplicating gadget set.
//!
//! Two occurrences at different addresses with the same decoded instruction
//! sequence are the same gadget: identity is the ordered sequence of
//! normalized instruction records (the canonical key), never the address or
//! the raw encoding. A [`GadgetSet`] keys its entries by that sequence and
//! merges occurrences instead of duplicating entries.

use vstd::prelude::*;

use crate::insn::{Instruction, InstrKind};

verus! {

/// Normalized identities of a run of instructions: the canonical key.
pub open spec fn kinds_of(s: Seq<Instruction>) -> Seq<InstrKind> {
    s.map_values(|i: Instruction| i.kind)
}

/// Total encoded length of a run of instructions, in bytes.
pub open spec fn sum_len(s: Seq<Instruction>) -> int
    decreases s.len(),
{
    if s.len() == 0 {
        0
    } else {
        sum_len(s.drop_last()) + s.last().bytes.len()
    }
}

pub proof fn lemma_sum_len_step(s: Seq<Instruction>, i: int)
    requires
        0 <= i < s.len(),
    ensures
        sum_len(s.take(i + 1)) == sum_len(s.take(i)) + s[i].bytes.len(),
{
    assert(s.take(i + 1).drop_last() =~= s.take(i));
    assert(s.take(i + 1).last() == s[i]);
}

pub proof fn lemma_sum_len_take_le(s: Seq<Instruction>, i: int)
    requires
        0 <= i <= s.len(),
    ensures
        sum_len(s.take(i)) <= sum_len(s),
    decreases s.len() - i,
{
    if i == s.len() {
        assert(s.take(i) =~= s);
    } else {
        lemma_sum_len_step(s, i);
        lemma_sum_len_take_le(s, i + 1);
    }
}

/// One deduplicated gadget: a representative decoded instruction sequence
/// (the first occurrence found) together with every place the same canonical
/// key was seen, grouped by binary identifier.
#[derive(Debug)]
pub struct Gadget {
    /// The representative instruction sequence; its last instruction is the
    /// control transfer the gadget ends in.
    pub instructions: Vec<Instruction>,
    /// Per binary identifier, every starting address at which this gadget's
    /// canonical key was found. Binary identifiers are pairwise distinct and
    /// each address list is nonempty and duplicate-free.
    pub occurs_in: Vec<(u64, Vec<u64>)>,
}

impl Gadget {
    /// The canonical key: the ordered normalized instruction identities.
    pub open spec fn key(self) -> Seq<InstrKind> {
        kinds_of(self.instructions@)
    }

    /// Address of the representative occurrence's first instruction.
    pub open spec fn spec_first(self) -> u64 {
        self.instructions[0].address
    }

    /// Whether address `a` is recorded as an occurrence in binary `b`.
    pub open spec fn occ_contains(self, b: u64, a: u64) -> bool {
        exists|i: int|
            0 <= i < self.occurs_in.len() && self.occurs_in[i].0 == b
                && self.occurs_in[i].1@.contains(a)
    }

    /// Whether any occurrence in binary `b` is recorded.
    pub open spec fn occ_has_bin(self, b: u64) -> bool {
        exists|i: int| 0 <= i < self.occurs_in.len() && self.occurs_in[i].0 == b
    }

    /// The representative sequence is a nonempty run of recognized,
    /// contiguously addressed instructions.
    pub open spec fn instrs_wf(self) -> bool {
        &&& self.instructions.len() > 0
        &&& forall|i: int| 0 <= i < self.instructions.len() ==> self.instructions[i].wf()
        &&& forall|i: int|
            1 <= i < self.instructions.len() ==> #[trigger] self.instructions[i].address
                == self.instructions[i - 1].address + self.instructions[i - 1].bytes.len()
    }

    /// The occurrence records group addresses under pairwise distinct binary
    /// identifiers, and every group holds at least one address, each once.
    pub open spec fn occs_wf(self) -> bool {
        &&& forall|i: int, j: int|
            0 <= i < j < self.occurs_in.len() ==> self.occurs_in[i].0 != self.occurs_in[j].0
        &&& forall|i: int|
            0 <= i < self.occurs_in.len() ==> self.occurs_in[i].1.len() > 0
                && self.occurs_in[i].1@.no_duplicates()
    }

    /// Well-formedness; the byte-length cap is the data model's `u32` size
    /// field.
    pub open spec fn wf(self) -> bool {
        &&& self.instrs_wf()
        &&& self.occs_wf()
        &&& sum_len(self.instructions@) <= u32::MAX
    }

    /// Number of instructions in the gadget.
    pub fn instr_count(&self) -> (r: usize)
        ensures
            r == self.instructions.len(),
    {
        self.instructions.len()
    }

    /// Address of the representative occurrence's first instruction.
    pub fn first_address(&self) -> (r: u64)
        requires
            self.instructions.len() > 0,
        ensures
            r == self.spec_first(),
    {
        self.instructions[0].address
    }

    /// Total encoded length in bytes.
    pub fn byte_length(&self) -> (r: u32)
        requires
            self.wf(),
        ensures
            r == sum_len(self.instructions@),
    {
        let n = self.instructions.len();
        let mut acc: u64 = 0;
        let mut i: usize = 0;
        while i < n
            invariant
                0 <= i <= n,
                n == self.instructions.len(),
                self.wf(),
                acc == sum_len(self.instructions@.take(i as int)),
                acc <= u32::MAX,
            decreases n - i,
        {
            proof {
                lemma_sum_len_step(self.instructions@, i as int);
                lemma_sum_len_take_le(self.instructions@, i + 1);
            }
            acc = acc + self.instructions[i].bytes.len() as u64;
            i = i + 1;
        }
        proof {
            assert(self.instructions@.take(n as int) =~= self.instructions@);
        }
        acc as u32
    }

    /// Records that this gadget's key was seen at `addr` in binary `bin`.
    /// Recording an occurrence already present leaves the gadget untouched;
    /// a new address joins the binary's group without disturbing anything
    /// else; the representative instructions never change.
    pub fn record_occurrence(&mut self, bin: u64, addr: u64)
        requires
            old(self).wf(),
        ensures
            final(self).wf(),
            final(self).instructions == old(self).instructions,
            forall|b: u64, a: u64|
                final(self).occ_contains(b, a) <==> old(self).occ_contains(b, a) || (b == bin && a
                    == addr),
            forall|b: u64| final(self).occ_has_bin(b) <==> old(self).occ_has_bin(b) || b == bin,
            old(self).occ_contains(bin, addr) ==> *final(self) == *old(self),
    {
        let n = self.occurs_in.len();
        let mut i: usize = 0;
        let mut found: bool = false;
        while i < n && !found
            invariant
                0 <= i <= n,
                n == self.occurs_in.len(),
                *self == *old(self),
                found ==> i < n && self.occurs_in[i as int].0 == bin,
                !found ==> forall|t: int| 0 <= t < i ==> self.occurs_in[t].0 != bin,
            decreases n - i + (if found { 0int } else { 1int }),
        {
            if self.occurs_in[i].0 == bin {
                found = true;
            } else {
                i = i + 1;
            }
        }
        if found {
            if contains_u64(&self.occurs_in[i].1, addr) {
                // the exact occurrence is already recorded: nothing to do
                proof {
                    assert(old(self).occ_contains(bin, addr));
                    assert(forall|b: u64, a: u64|
                        self.occ_contains(b, a) <==> old(self).occ_contains(b, a) || (b == bin && a
                            == addr));
                }
            } else {
                proof {
                    assert(forall|t: int|
                        0 <= t < old(self).occurs_in.len() && t != i ==> old(
                            self,
                        ).occurs_in[t].0 != bin);
                    assert(!old(self).occ_contains(bin, addr));
                }
                let ghost pre = self.occurs_in@;
                let pair = pair_at_mut(&mut self.occurs_in, i);
                pair.1.push(addr);
                proof {
                    let post = self.occurs_in@;
                    assert(post == pre.update(i as int, (pre[i as int].0, post[i as int].1)));
                    assert(post[i as int].1@ == pre[i as int].1@.push(addr));
                    assert forall|b: u64, a: u64|
                        self.occ_contains(b, a) <==> old(self).occ_contains(b, a) || (b == bin && a
                            == addr) by {
                        if self.occ_contains(b, a) {
                            let t = choose|t: int|
                                0 <= t < post.len() && post[t].0 == b && post[t].1@.contains(a);
                            if t == i {
                                if a != addr {
                                    assert(pre[t].1@.contains(a));
                                }
                            } else {
                                assert(pre[t].0 == b && pre[t].1@.contains(a));
                            }
                        }
                        if old(self).occ_contains(b, a) {
                            let t = choose|t: int|
                                0 <= t < pre.len() && pre[t].0 == b && pre[t].1@.contains(a);
                            if t == i {
                                let idx = choose|idx: int|
                                    0 <= idx < pre[t].1@.len() && pre[t].1@[idx] == a;
                                assert(post[t].1@[idx] == a);
                                assert(post[t].1@.contains(a));
                            } else {
                                assert(post[t].0 == b && post[t].1@.contains(a));
                            }
                        }
                        if b == bin && a == addr {
                            assert(post[i as int].1@[pre[i as int].1@.len() as int] == addr);
                            assert(post[i as int].1@.contains(addr));
                            assert(self.occ_contains(bin, addr));
                        }
                    }
                    assert forall|b: u64|
                        self.occ_has_bin(b) <==> old(self).occ_has_bin(b) || b == bin by {
                        if self.occ_has_bin(b) {
                            let t = choose|t: int| 0 <= t < post.len() && post[t].0 == b;
                            assert(pre[t].0 == b);
                        }
                        if old(self).occ_has_bin(b) {
                            let t = choose|t: int| 0 <= t < pre.len() && pre[t].0 == b;
                            assert(post[t].0 == b);
                        }
                        if b == bin {
                            assert(post[i as int].0 == bin);
                        }
                    }
                }
            }
        } else {
            proof {
                assert(!old(self).occ_has_bin(bin));
                assert(!old(self).occ_contains(bin, addr));
            }
            let mut addrs: Vec<u64> = Vec::new();
            addrs.push(addr);
            self.occurs_in.push((bin, addrs));
            proof {
                let pre = old(self).occurs_in@;
                let post = self.occurs_in@;
                let m = pre.len() as int;
                assert(post[m].1@ =~= seq![addr]);
                assert forall|b: u64, a: u64|
                    self.occ_contains(b, a) <==> old(self).occ_contains(b, a) || (b == bin && a
                        == addr) by {
                    if self.occ_contains(b, a) {
                        let t = choose|t: int|
                            0 <= t < post.len() && post[t].0 == b && post[t].1@.contains(a);
                        if t < m {
                            assert(pre[t].0 == b && pre[t].1@.contains(a));
                        } else {
                            assert(post[t].1@ =~= seq![addr]);
                        }
                    }
                    if old(self).occ_contains(b, a) {
                        let t = choose|t: int|
                            0 <= t < pre.len() && pre[t].0 == b && pre[t].1@.contains(a);
                        assert(post[t].0 == b && post[t].1@.contains(a));
                    }
                    if b == bin && a == addr {
                        assert(post[m].1@[0] == addr);
                        assert(post[m].1@.contains(addr));
                    }
                }
                assert forall|b: u64|
                    self.occ_has_bin(b) <==> old(self).occ_has_bin(b) || b == bin by {
                    if self.occ_has_bin(b) {
                        let t = choose|t: int| 0 <= t < post.len() && post[t].0 == b;
                        if t < m {
                            assert(pre[t].0 == b);
                        }
                    }
                    if old(self).occ_has_bin(b) {
                        let t = choose|t: int| 0 <= t < pre.len() && pre[t].0 == b;
                        assert(post[t].0 == b);
                    }
                }
            }
        }
    }

    /// Whether the occurrence `(bin, addr)` is already recorded.
    pub fn has_occurrence(&self, bin: u64, addr: u64) -> (r: bool)
        ensures
            r == self.occ_contains(bin, addr),
    {
        let n = self.occurs_in.len();
        let mut i: usize = 0;
        while i < n
            invariant
                0 <= i <= n,
                n == self.occurs_in.len(),
                forall|t: int|
                    0 <= t < i ==> !(self.occurs_in[t].0 == bin && self.occurs_in[t].1@.contains(
                        addr,
                    )),
            decreases n - i,
        {
            if self.occurs_in[i].0 == bin {
                if contains_u64(&self.occurs_in[i].1, addr) {
                    return true;
                }
            }
            i = i + 1;
        }
        false
    }
}

/// Whether `v` holds `x`.
fn contains_u64(v: &Vec<u64>, x: u64) -> (r: bool)
    ensures
        r == v@.contains(x),
{
    let n = v.len();
    let mut i: usize = 0;
    while i < n
        invariant
            0 <= i <= n,
            n == v.len(),
            forall|t: int| 0 <= t < i ==> v[t] != x,
        decreases n - i,
    {
        if v[i] == x {
            return true;
        }
        i = i + 1;
    }
    false
}

/// Mutable access to one element of a vector.
fn pair_at_mut<T>(v: &mut Vec<T>, i: usize) -> (element: &mut T)
    requires
        i < old(v).len(),
    ensures
        *element == old(v)[i as int],
        final(v)@ == old(v)@.update(i as int, *final(element)),
{
    &mut v[i]
}

/// Whether two instruction runs have the same canonical key.
pub fn same_kinds(a: &Vec<Instruction>, b: &Vec<Instruction>) -> (r: bool)
    ensures
        r == (kinds_of(a@) == kinds_of(b@)),
{
    if a.len() != b.len() {
        proof {
            assert(kinds_of(a@).len() != kinds_of(b@).len());
        }
        return false;
    }
    let n = a.len();
    let mut i: usize = 0;
    while i < n
        invariant
            0 <= i <= n,
            n == a.len(),
            n == b.len(),
            forall|t: int| 0 <= t < i ==> a[t].kind == b[t].kind,
        decreases n - i,
    {
        if !(a[i].kind == b[i].kind) {
            proof {
                assert(kinds_of(a@)[i as int] != kinds_of(b@)[i as int]);
            }
            return false;
        }
        i = i + 1;
    }
    proof {
        assert(kinds_of(a@) =~= kinds_of(b@));
    }
    true
}

/// A deduplicated collection of gadgets, keyed by canonical key: no two
/// entries share a key, and inserting a key already present merges the new
/// occurrence into the existing entry.
#[derive(Debug)]
pub struct GadgetSet {
    /// The entries; their canonical keys are pairwise distinct.
    pub entries: Vec<Gadget>,
}

impl GadgetSet {
    /// Every entry is well formed and keys are pairwise distinct.
    pub open spec fn wf(self) -> bool {
        &&& forall|i: int| 0 <= i < self.entries.len() ==> self.entries[i].wf()
        &&& forall|i: int, j: int|
            0 <= i < j < self.entries.len() ==> self.entries[i].key() != self.entries[j].key()
    }

    /// Whether some entry has canonical key `k`.
    pub open spec fn has_key(self, k: Seq<InstrKind>) -> bool {
        exists|i: int| 0 <= i < self.entries.len() && self.entries[i].key() == k
    }

    /// Whether the entry with key `k` records address `a` in binary `b`.
    pub open spec fn occ_contains(self, k: Seq<InstrKind>, b: u64, a: u64) -> bool {
        exists|i: int|
            0 <= i < self.entries.len() && self.entries[i].key() == k
                && self.entries[i].occ_contains(b, a)
    }

    /// Whether the entry with key `k` records any occurrence in binary `b`.
    pub open spec fn occ_has_bin(self, k: Seq<InstrKind>, b: u64) -> bool {
        exists|i: int|
            0 <= i < self.entries.len() && self.entries[i].key() == k
                && self.entries[i].occ_has_bin(b)
    }

    /// An empty set.
    pub fn new() -> (r: GadgetSet)
        ensures
            r.wf(),
            r.entries@.len() == 0,
    {
        GadgetSet { entries: Vec::new() }
    }

    /// Number of distinct gadgets.
    pub fn len(&self) -> (r: usize)
        ensures
            r == self.entries.len(),
    {
        self.entries.len()
    }

    /// The entry at position `i` of the backing storage.
    pub fn get(&self, i: usize) -> (r: &Gadget)
        requires
            i < self.entries.len(),
        ensures
            *r == self.entries[i as int],
    {
        &self.entries[i]
    }

    /// Index of the entry whose canonical key equals that of `instrs`.
    pub fn find_key_index(&self, instrs: &Vec<Instruction>) -> (r: Option<usize>)
        ensures
            match r {
                Some(i) => i < self.entries.len() && self.entries[i as int].key() == kinds_of(
                    instrs@,
                ),
                None => !self.has_key(kinds_of(instrs@)),
            },
    {
        let n = self.entries.len();
        let mut i: usize = 0;
        while i < n
            invariant
                0 <= i <= n,
                n == self.entries.len(),
                forall|t: int| 0 <= t < i ==> self.entries[t].key() != kinds_of(instrs@),
            decreases n - i,
        {
            if same_kinds(&self.entries[i].instructions, instrs) {
                return Some(i);
            }
            i = i + 1;
        }
        None
    }

    /// Inserts one occurrence of gadget `g` (found at its representative's
    /// first address) for binary `bin`, merging on canonical key.
    ///
    /// Merging is idempotent: if the exact occurrence is already recorded
    /// the set is left untouched, and a known key at a new address gains an
    /// address without a second entry being created. Any occurrence records
    /// carried by `g` itself are not taken over; exactly the occurrence
    /// `(bin, g.spec_first())` is recorded.
    pub fn insert_occurrence(&mut self, g: Gadget, bin: u64)
        requires
            old(self).wf(),
            g.instrs_wf(),
            sum_len(g.instructions@) <= u32::MAX,
        ensures
            final(self).wf(),
            forall|k: Seq<InstrKind>|
                final(self).has_key(k) <==> old(self).has_key(k) || k == g.key(),
            forall|k: Seq<InstrKind>, b: u64, a: u64|
                final(self).occ_contains(k, b, a) <==> old(self).occ_contains(k, b, a) || (k
                    == g.key() && b == bin && a == g.spec_first()),
            forall|k: Seq<InstrKind>, b: u64|
                final(self).occ_has_bin(k, b) <==> old(self).occ_has_bin(k, b) || (k == g.key() && b
                    == bin),
            forall|i: int|
                0 <= i < old(self).entries.len() ==> final(self).entries[i].instructions == old(
                    self,
                ).entries[i].instructions,
            old(self).has_key(g.key()) ==> final(self).entries.len() == old(self).entries.len(),
            !old(self).has_key(g.key()) ==> final(self).entries.len() == old(self).entries.len()
                + 1 && final(self).entries[old(self).entries.len() as int].instructions
                == g.instructions,
            old(self).occ_contains(g.key(), bin, g.spec_first()) ==> *final(self) == *old(self),
    {
        let first = g.first_address();
        match self.find_key_index(&g.instructions) {
            Some(i) => {
                proof {
                    assert(forall|t: int|
                        0 <= t < self.entries.len() && t != i ==> self.entries[t].key()
                            != g.key());
                }
                if self.entries[i].has_occurrence(bin, first) {
                    // the exact occurrence is already recorded: nothing to do
                    proof {
                        assert(old(self).occ_contains(g.key(), bin, g.spec_first()));
                    }
                } else {
                    proof {
                        assert(!old(self).occ_contains(g.key(), bin, g.spec_first()));
                    }
                    let ghost pre = self.entries@;
                    let e = pair_at_mut(&mut self.entries, i);
                    e.record_occurrence(bin, first);
                    proof {
                        let post = self.entries@;
                        assert(post == pre.update(i as int, post[i as int]));
                        assert(post[i as int].key() == g.key());
                        assert forall|k: Seq<InstrKind>|
                            self.has_key(k) <==> old(self).has_key(k) || k == g.key() by {
                            if self.has_key(k) {
                                let t = choose|t: int|
                                    0 <= t < post.len() && post[t].key() == k;
                                assert(pre[t].key() == k);
                            }
                            if old(self).has_key(k) {
                                let t = choose|t: int| 0 <= t < pre.len() && pre[t].key() == k;
                                assert(post[t].key() == k);
                            }
                        }
                        assert forall|k: Seq<InstrKind>, b: u64, a: u64|
                            self.occ_contains(k, b, a) <==> old(self).occ_contains(k, b, a) || (k
                                == g.key() && b == bin && a == g.spec_first()) by {
                            if self.occ_contains(k, b, a) {
                                let t = choose|t: int|
                                    0 <= t < post.len() && post[t].key() == k
                                        && post[t].occ_contains(b, a);
                                if t == i {
                                    if !(b == bin && a == first) {
                                        assert(pre[t].occ_contains(b, a));
                                    }
                                } else {
                                    assert(pre[t].occ_contains(b, a));
                                }
                            }
                            if old(self).occ_contains(k, b, a) {
                                let t = choose|t: int|
                                    0 <= t < pre.len() && pre[t].key() == k
                                        && pre[t].occ_contains(b, a);
                                assert(post[t].key() == k && post[t].occ_contains(b, a));
                            }
                            if k == g.key() && b == bin && a == g.spec_first() {
                                assert(post[i as int].occ_contains(bin, first));
                            }
                        }
                        assert forall|k: Seq<InstrKind>, b: u64|
                            self.occ_has_bin(k, b) <==> old(self).occ_has_bin(k, b) || (k
                                == g.key() && b == bin) by {
                            if self.occ_has_bin(k, b) {
                                let t = choose|t: int|
                                    0 <= t < post.len() && post[t].key() == k
                                        && post[t].occ_has_bin(b);
                                if t == i {
                                    if b != bin {
                                        assert(pre[t].occ_has_bin(b));
                                    }
                                } else {
                                    assert(pre[t].occ_has_bin(b));
                                }
                            }
                            if old(self).occ_has_bin(k, b) {
                                let t = choose|t: int|
                                    0 <= t < pre.len() && pre[t].key() == k
                                        && pre[t].occ_has_bin(b);
                                assert(post[t].key() == k && post[t].occ_has_bin(b));
                            }
                            if k == g.key() && b == bin {
                                assert(post[i as int].occ_has_bin(bin));
                            }
                        }
                    }
                }
            },
            None => {
                let mut addrs: Vec<u64> = Vec::new();
                addrs.push(first);
                let mut occs: Vec<(u64, Vec<u64>)> = Vec::new();
                occs.push((bin, addrs));
                let g2 = Gadget { instructions: g.instructions, occurs_in: occs };
                proof {
                    assert(g2.key() == g.key());
                    assert(g2.occurs_in[0].1@ =~= seq![first]);
                    assert forall|b: u64, a: u64|
                        g2.occ_contains(b, a) <==> (b == bin && a == first) by {
                        if g2.occ_contains(b, a) {
                            let t = choose|t: int|
                                0 <= t < g2.occurs_in.len() && g2.occurs_in[t].0 == b
                                    && g2.occurs_in[t].1@.contains(a);
                            assert(t == 0);
                        }
                        if b == bin && a == first {
                            assert(g2.occurs_in[0].1@[0] == first);
                            assert(g2.occurs_in[0].1@.contains(first));
                        }
                    }
                    assert forall|b: u64| g2.occ_has_bin(b) <==> b == bin by {
                        if g2.occ_has_bin(b) {
                            let t = choose|t: int|
                                0 <= t < g2.occurs_in.len() && g2.occurs_in[t].0 == b;
                            assert(t == 0);
                        }
                        if b == bin {
                            assert(g2.occurs_in[0].0 == bin);
                        }
                    }
                    assert(g2.wf());
                }
                let ghost pre = self.entries@;
                self.entries.push(g2);
                proof {
                    let post = self.entries@;
                    let m = pre.len() as int;
                    assert(post == pre.push(g2));
                    assert forall|k: Seq<InstrKind>|
                        self.has_key(k) <==> old(self).has_key(k) || k == g.key() by {
                        if self.has_key(k) {
                            let t = choose|t: int| 0 <= t < post.len() && post[t].key() == k;
                            if t < m {
                                assert(pre[t].key() == k);
                            }
                        }
                        if old(self).has_key(k) {
                            let t = choose|t: int| 0 <= t < pre.len() && pre[t].key() == k;
                            assert(post[t].key() == k);
                        }
                        if k == g.key() {
                            assert(post[m].key() == k);
                        }
                    }
                    assert forall|k: Seq<InstrKind>, b: u64, a: u64|
                        self.occ_contains(k, b, a) <==> old(self).occ_contains(k, b, a) || (k
                            == g.key() && b == bin && a == g.spec_first()) by {
                        if self.occ_contains(k, b, a) {
                            let t = choose|t: int|
                                0 <= t < post.len() && post[t].key() == k && post[t].occ_contains(
                                    b,
                                    a,
                                );
                            if t < m {
                                assert(pre[t].key() == k && pre[t].occ_contains(b, a));
                            }
                        }
                        if old(self).occ_contains(k, b, a) {
                            let t = choose|t: int|
                                0 <= t < pre.len() && pre[t].key() == k && pre[t].occ_contains(
                                    b,
                                    a,
                                );
                            assert(post[t].key() == k && post[t].occ_contains(b, a));
                        }
                        if k == g.key() && b == bin && a == g.spec_first() {
                            assert(post[m].occ_contains(bin, first));
                        }
                    }
                    assert forall|k: Seq<InstrKind>, b: u64|
                        self.occ_has_bin(k, b) <==> old(self).occ_has_bin(k, b) || (k == g.key()
                            && b == bin) by {
                        if self.occ_has_bin(k, b) {
                            let t = choose|t: int|
                                0 <= t < post.len() && post[t].key() == k && post[t].occ_has_bin(
                                    b,
                                );
                            if t < m {
                                assert(pre[t].key() == k && pre[t].occ_has_bin(b));
                            }
                        }
                        if old(self).occ_has_bin(k, b) {
                            let t = choose|t: int|
                                0 <= t < pre.len() && pre[t].key() == k && pre[t].occ_has_bin(b);
                            assert(post[t].key() == k && post[t].occ_has_bin(b));
                        }
                        if k == g.key() && b == bin {
                            assert(post[m].occ_has_bin(bin));
                        }
                    }
                }
            },
        }
    }
}

} // verus!
