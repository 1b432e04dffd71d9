//! Basic blocks and the synthesis of unique block identifiers.
//!
//! A sealed block proposes a name from its first labeled instruction, else
//! the first instruction's destination, function references, or operation,
//! else a caller-supplied fallback; a proposal already in use gets successive
//! integers appended until a free name is found.

use vstd::prelude::*;
use crate::bril::{BrilInstruction, InstrView};
use crate::smap::StrSet;
use crate::text::{digit_char, spec_digits, spec_join, u64_digits, join_with};

verus! {

/// An ordered sequence of instructions with a unique identifier.
pub struct BasicBlock {
    pub idx: String,
    pub instructions: Vec<BrilInstruction>,
}

/// The mathematical image of a [`BasicBlock`].
pub ghost struct BlockView {
    pub idx: Seq<char>,
    pub instructions: Seq<InstrView>,
}

impl View for BasicBlock {
    type V = BlockView;

    open spec fn view(&self) -> BlockView {
        BlockView { idx: self.idx@, instructions: self.instructions.deep_view() }
    }
}

impl DeepView for BasicBlock {
    type V = BlockView;

    open spec fn deep_view(&self) -> BlockView {
        self.view()
    }
}

/// Copies a vector of instructions.
pub fn clone_instrs(v: &Vec<BrilInstruction>) -> (r: Vec<BrilInstruction>)
    ensures
        r.deep_view() == v.deep_view(),
{
    let mut out: Vec<BrilInstruction> = Vec::new();
    let mut i: usize = 0;
    while i < v.len()
        invariant
            0 <= i <= v@.len(),
            out@.len() == i,
            forall|j: int| 0 <= j < i ==> (#[trigger] out@[j])@ == v@[j]@,
        decreases v@.len() - i,
    {
        out.push(v[i].clone());
        i = i + 1;
    }
    proof {
        assert forall|j: int| 0 <= j < v@.len() implies out.deep_view()[j] == v.deep_view()[j] by {
            assert(out@[j]@ == v@[j]@);
        }
        assert(out.deep_view() =~= v.deep_view());
    }
    out
}

impl Clone for BasicBlock {
    fn clone(&self) -> (r: Self)
        ensures
            r@ == self@,
    {
        BasicBlock { idx: self.idx.clone(), instructions: clone_instrs(&self.instructions) }
    }
}

/// The label of the first labeled instruction, if any instruction carries one.
pub open spec fn first_label(instrs: Seq<InstrView>) -> Option<Seq<char>>
    decreases instrs.len(),
{
    if instrs.len() == 0 {
        None
    } else if instrs[0].label is Some {
        instrs[0].label
    } else {
        first_label(instrs.drop_first())
    }
}

/// The name proposed for a block: the first label carried by any of its
/// instructions, else the first instruction's destination, else its
/// comma-joined function references, else its operation, else the fallback.
pub open spec fn spec_block_name(instrs: Seq<InstrView>, fallback: Seq<char>) -> Seq<char> {
    if instrs.len() == 0 {
        fallback
    } else {
        match first_label(instrs) {
            Some(l) => l,
            None => match instrs[0].dest {
                Some(d) => d,
                None => match instrs[0].funcs {
                    Some(fs) => spec_join(fs, ", "@),
                    None => match instrs[0].op {
                        Some(o) => o,
                        None => fallback,
                    },
                },
            },
        }
    }
}

/// The proposed name with the counter `k` appended.
pub open spec fn candidate_name(base: Seq<char>, k: nat) -> Seq<char> {
    base + spec_digits(k)
}

/// The decimal rendering is faithful: its value is the number rendered.
proof fn lemma_digits_value(n: nat)
    ensures
        crate::text::val_of(spec_digits(n)) == n,
    decreases n,
{
    if n < 10 {
        assert(spec_digits(n) == seq![digit_char(n)]);
        assert(spec_digits(n).drop_last() =~= Seq::<char>::empty());
        assert(crate::text::val_of(Seq::<char>::empty()) == 0);
        assert(spec_digits(n).last() == digit_char(n));
        assert(crate::text::digit_val(digit_char(n)) == n);
    } else {
        lemma_digits_value(n / 10);
        assert(spec_digits(n).drop_last() =~= spec_digits(n / 10));
        assert(spec_digits(n).last() == digit_char(n % 10));
        assert(crate::text::digit_val(digit_char(n % 10)) == n % 10);
    }
}

/// Distinct counters give distinct candidate names.
proof fn lemma_candidate_injective(base: Seq<char>, j: nat, k: nat)
    requires
        j != k,
    ensures
        candidate_name(base, j) != candidate_name(base, k),
{
    if candidate_name(base, j) == candidate_name(base, k) {
        assert((base + spec_digits(j)).skip(base.len() as int) =~= spec_digits(j));
        assert((base + spec_digits(k)).skip(base.len() as int) =~= spec_digits(k));
        assert(spec_digits(j) == spec_digits(k));
        lemma_digits_value(j);
        lemma_digits_value(k);
    }
}

/// A set holding the first `m` candidate names holds at least `m` elements.
proof fn lemma_candidates_need_room(base: Seq<char>, used: Set<Seq<char>>, m: nat)
    requires
        used.finite(),
        forall|k: nat| 1 <= k <= m ==> used.contains(#[trigger] candidate_name(base, k)),
    ensures
        used.len() >= m,
    decreases m,
{
    if m > 0 {
        let smaller = used.remove(candidate_name(base, m));
        assert forall|k: nat| 1 <= k <= (m - 1) as nat implies smaller.contains(
            #[trigger] candidate_name(base, k),
        ) by {
            lemma_candidate_injective(base, k, m);
        }
        lemma_candidates_need_room(base, smaller, (m - 1) as nat);
    }
}

/// The first free candidate name at or after counter `k`.
pub open spec fn spec_fresh_from(base: Seq<char>, used: Set<Seq<char>>, k: nat) -> Seq<char>
    decreases used.len() + 2 - k,
    when used.finite() && 1 <= k <= used.len() + 1
{
    if !used.finite() || k < 1 || k > used.len() + 1 {
        base
    } else if !used.contains(candidate_name(base, k)) {
        candidate_name(base, k)
    } else {
        spec_fresh_from(base, used, k + 1)
    }
}

/// The name chosen for a proposal: the proposal itself when free, else the
/// first free candidate with a counter appended.
pub open spec fn spec_unique_name(proposed: Seq<char>, used: Set<Seq<char>>) -> Seq<char> {
    if used.contains(proposed) {
        spec_fresh_from(proposed, used, 1)
    } else {
        proposed
    }
}

/// The first free candidate is indeed free of the used names.
pub proof fn lemma_fresh_free(base: Seq<char>, used: Set<Seq<char>>, k: nat)
    requires
        used.finite(),
        1 <= k <= used.len() + 1,
        forall|j: nat| 1 <= j < k ==> used.contains(#[trigger] candidate_name(base, j)),
    ensures
        !used.contains(spec_fresh_from(base, used, k)),
    decreases used.len() + 2 - k,
{
    if used.contains(candidate_name(base, k)) {
        lemma_candidates_need_room(base, used, k);
        lemma_fresh_free(base, used, k + 1);
    }
}

/// The chosen name is never one of the used names.
pub proof fn lemma_unique_name_free(proposed: Seq<char>, used: Set<Seq<char>>)
    requires
        used.finite(),
    ensures
        !used.contains(spec_unique_name(proposed, used)),
{
    if used.contains(proposed) {
        lemma_fresh_free(proposed, used, 1);
    }
}

/// Appends successive counters to the base name until the candidate is free,
/// records the winner as used, and returns it.
fn fresh_name(base: &str, used_names: &mut StrSet) -> (r: String)
    requires
        old(used_names).wf(),
        old(used_names)@.finite(),
        old(used_names)@.len() < usize::MAX,
    ensures
        final(used_names).wf(),
        r@ == spec_fresh_from(base@, old(used_names)@, 1),
        !old(used_names)@.contains(r@),
        final(used_names)@ == old(used_names)@.insert(r@),
{
    let ghost used0 = used_names@;
    let n = used_names.len();
    let mut k: usize = 1;
    loop
        invariant
            used_names.wf(),
            used_names@ == used0,
            used0 == old(used_names)@,
            used0.finite(),
            n == used0.len(),
            n < usize::MAX,
            1 <= k <= n + 1,
            forall|j: nat| 1 <= j < k ==> used0.contains(#[trigger] candidate_name(base@, j)),
            spec_fresh_from(base@, used0, 1) == spec_fresh_from(base@, used0, k as nat),
        decreases n + 1 - k,
    {
        let mut cand = base.to_owned();
        let ds = u64_digits(k as u64);
        cand.append(ds.as_str());
        proof {
            assert(cand@ == candidate_name(base@, k as nat));
        }
        if !used_names.contains(cand.as_str()) {
            proof {
                assert(used0 == old(used_names)@);
                assert(!used0.contains(cand@));
                assert(used0.finite() && 1 <= k as nat <= used0.len() + 1);
                assert(spec_fresh_from(base@, used0, k as nat) == candidate_name(base@, k as nat));
                assert(spec_fresh_from(base@, used0, 1) == cand@);
            }
            used_names.insert(cand.clone());
            proof {
                assert(used_names@ == used0.insert(cand@));
            }
            return cand;
        }
        proof {
            lemma_candidates_need_room(base@, used0, k as nat);
            assert(used0.len() >= k);
        }
        k = k + 1;
    }
}

/// Chooses a block name from the proposal, appending counters on collision,
/// and records the chosen name as used.
fn get_unique_name(instructions: &Vec<BrilInstruction>, used_names: &mut StrSet, fallback: &str) -> (r:
    String)
    requires
        old(used_names).wf(),
        old(used_names)@.finite(),
        old(used_names)@.len() < usize::MAX,
    ensures
        final(used_names).wf(),
        r@ == spec_unique_name(spec_block_name(instructions.deep_view(), fallback@), old(used_names)@),
        final(used_names)@ == old(used_names)@.insert(r@),
{
    let proposed = get_block_name(instructions, fallback);
    if used_names.contains(proposed.as_str()) {
        fresh_name(proposed.as_str(), used_names)
    } else {
        used_names.insert(proposed.clone());
        proposed
    }
}

/// The name a block proposes for itself, before collision handling.
fn get_block_name(instructions: &Vec<BrilInstruction>, fallback: &str) -> (r: String)
    ensures
        r@ == spec_block_name(instructions.deep_view(), fallback@),
{
    let ghost iv = instructions.deep_view();
    if instructions.len() == 0 {
        return fallback.to_owned();
    }
    let mut i: usize = 0;
    proof {
        assert(iv.skip(0) =~= iv);
    }
    while i < instructions.len()
        invariant
            0 <= i <= instructions@.len(),
            iv == instructions.deep_view(),
            iv.len() == instructions@.len(),
            first_label(iv) == first_label(iv.skip(i as int)),
        decreases instructions@.len() - i,
    {
        match instructions[i].get_label() {
            Some(label) => {
                proof {
                    assert(iv.skip(i as int)[0] == iv[i as int]);
                    assert(first_label(iv) == Some(label@));
                }
                return label.to_owned();
            },
            None => {
                proof {
                    assert(iv.skip(i as int)[0] == iv[i as int]);
                    assert(iv.skip(i as int).drop_first() =~= iv.skip(i + 1));
                }
            },
        }
        i = i + 1;
    }
    proof {
        assert(iv.skip(iv.len() as int) =~= Seq::<InstrView>::empty());
        assert(first_label(iv) is None);
    }
    let first = &instructions[0];
    proof {
        assert(iv[0] == instructions@[0]@);
    }
    match first.get_dest() {
        Some(d) => {
            return d.to_owned();
        },
        None => {},
    }
    match first.get_funcs() {
        Some(fs) => {
            return join_with(&fs, ", ");
        },
        None => {},
    }
    match first.get_op() {
        Some(o) => {
            return o.to_owned();
        },
        None => {},
    }
    fallback.to_owned()
}

impl BasicBlock {
    /// A block with the given identifier and instructions.
    pub fn new(idx: String, instructions: Vec<BrilInstruction>) -> (r: Self)
        ensures
            r@.idx == idx@,
            r@.instructions == instructions.deep_view(),
    {
        BasicBlock { idx, instructions }
    }

    /// Seals the given instructions as a block whose identifier is synthesized
    /// to be unique among the names recorded in `used_names`.
    pub fn new_with_unique_name(
        instructions: Vec<BrilInstruction>,
        used_names: &mut StrSet,
        fallback: &str,
    ) -> (r: Self)
        requires
            old(used_names).wf(),
            old(used_names)@.finite(),
            old(used_names)@.len() < usize::MAX,
        ensures
            final(used_names).wf(),
            r@.idx == spec_unique_name(
                spec_block_name(instructions.deep_view(), fallback@),
                old(used_names)@,
            ),
            r@.instructions == instructions.deep_view(),
            final(used_names)@ == old(used_names)@.insert(r@.idx),
    {
        let name = get_unique_name(&instructions, used_names, fallback);
        BasicBlock::new(name, instructions)
    }

    /// The block's last instruction, if the block is non-empty.
    pub fn last(&self) -> (r: Option<&BrilInstruction>)
        ensures
            match r {
                Some(i) => self@.instructions.len() > 0 && i@ == self@.instructions.last(),
                None => self@.instructions.len() == 0,
            },
    {
        if self.instructions.len() == 0 {
            None
        } else {
            let i = &self.instructions[self.instructions.len() - 1];
            proof {
                assert(self.instructions.deep_view().last() == self.instructions@[self.instructions@.len()
                    - 1]@);
            }
            Some(i)
        }
    }

    /// Appends an instruction to the block.
    pub fn push_instruction(&mut self, instruction: BrilInstruction)
        ensures
            final(self)@.idx == old(self)@.idx,
            final(self)@.instructions == old(self)@.instructions.push(instruction@),
    {
        self.instructions.push(instruction);
        proof {
            assert(self.instructions.deep_view() =~= old(self).instructions.deep_view().push(
                instruction@,
            ));
        }
    }
}

} // verus!
