//! Per-function control-flow graphs: partitioning a linear instruction list
//! into basic blocks, synthesizing unique block identifiers, inserting
//! implicit terminators so every block ends in an explicit transfer, and
//! recording successor edges.

use vstd::prelude::*;
use crate::bril::{BrilFunction, BrilInstruction, InstrView, is_terminator_op, is_terminator};
use crate::basic_block::{
    BasicBlock,
    BlockView,
    first_label,
    spec_block_name,
    spec_unique_name,
    lemma_unique_name_free,
};
use crate::smap::{StrMap, StrSet};
use crate::text::{spec_digits, u64_digits};

verus! {

/// One partitioning step: the blocks sealed so far and the staging buffer,
/// advanced by one instruction. A labeled instruction seals a non-empty
/// buffer and starts the next block; a terminator seals the buffer with
/// itself included; anything else joins the buffer.
pub open spec fn seal_step(
    acc: (Seq<Seq<InstrView>>, Seq<InstrView>),
    i: InstrView,
) -> (Seq<Seq<InstrView>>, Seq<InstrView>) {
    let (done, cur) = acc;
    if i.label is Some {
        if cur.len() > 0 {
            (done.push(cur), seq![i])
        } else {
            (done, cur.push(i))
        }
    } else if i.op is Some && is_terminator_op(i) {
        (done.push(cur.push(i)), Seq::empty())
    } else {
        (done, cur.push(i))
    }
}

/// The sealed blocks and staging buffer after the first `n` instructions.
pub open spec fn partition_upto(instrs: Seq<InstrView>, n: int) -> (
    Seq<Seq<InstrView>>,
    Seq<InstrView>,
)
    decreases n,
{
    if n <= 0 {
        (Seq::empty(), Seq::empty())
    } else {
        seal_step(partition_upto(instrs, n - 1), instrs[n - 1])
    }
}

/// The basic blocks of an instruction list: the sealed blocks, with any
/// residual non-empty buffer sealed as the final block.
pub open spec fn spec_partition(instrs: Seq<InstrView>) -> Seq<Seq<InstrView>> {
    let (done, cur) = partition_upto(instrs, instrs.len() as int);
    if cur.len() > 0 {
        done.push(cur)
    } else {
        done
    }
}

/// The caller-supplied fallback name for the block at position `i`.
pub open spec fn fallback_name(i: int) -> Seq<char> {
    "b"@ + spec_digits(i as nat)
}

/// The identifiers chosen for the first `n` blocks, in order: each block's
/// proposed name, made unique against all names chosen before it.
pub open spec fn names_upto(bs: Seq<Seq<InstrView>>, n: int) -> Seq<Seq<char>>
    decreases n,
{
    if n <= 0 {
        Seq::empty()
    } else {
        let prev = names_upto(bs, n - 1);
        prev.push(spec_unique_name(spec_block_name(bs[n - 1], fallback_name(n - 1)), prev.to_set()))
    }
}

/// The identifiers chosen for all blocks, in order.
pub open spec fn spec_block_names(bs: Seq<Seq<InstrView>>) -> Seq<Seq<char>> {
    names_upto(bs, bs.len() as int)
}

/// A synthesized `ret` with empty arguments.
pub open spec fn ret_instr() -> InstrView {
    InstrView {
        op: Some("ret"@),
        label: None,
        dest: None,
        typ: None,
        args: Some(Seq::empty()),
        labels: None,
        funcs: None,
        value: None,
    }
}

/// A synthesized `jmp` to a single target.
pub open spec fn jmp_instr(target: Seq<char>) -> InstrView {
    InstrView {
        op: Some("jmp"@),
        label: None,
        dest: None,
        typ: None,
        args: None,
        labels: Some(seq![target]),
        funcs: None,
        value: None,
    }
}

/// A block completed with its terminator: untouched when it already ends in
/// an explicit transfer, else closed by a `ret` when it is the final block
/// and by a `jmp` to the next block in program order otherwise.
pub open spec fn spec_with_terminator(b: Seq<InstrView>, is_last: bool, next: Seq<char>) -> Seq<
    InstrView,
> {
    if b.len() > 0 && is_terminator_op(b.last()) {
        b
    } else if is_last {
        b.push(ret_instr())
    } else {
        b.push(jmp_instr(next))
    }
}

/// The completed instruction list of the block at position `i`.
pub open spec fn spec_terminated_at(bs: Seq<Seq<InstrView>>, nm: Seq<Seq<char>>, i: int) -> Seq<
    InstrView,
> {
    spec_with_terminator(
        bs[i],
        i == bs.len() - 1,
        if i + 1 < nm.len() {
            nm[i + 1]
        } else {
            nm[i]
        },
    )
}

/// The successor labels a completed block declares: a `jmp` or `br`
/// terminator contributes its targets in declared order, anything else (or
/// absent or malformed targets) contributes none.
pub open spec fn spec_edges_of(b: Seq<InstrView>) -> Seq<Seq<char>> {
    if b.len() == 0 {
        Seq::empty()
    } else {
        let l = b.last();
        if l.op == Some("jmp"@) || l.op == Some("br"@) {
            match l.labels {
                Some(ls) => ls,
                None => Seq::empty(),
            }
        } else {
            Seq::empty()
        }
    }
}

/// A per-function control-flow graph: the block map, the successor table,
/// the entry block, and the order in which blocks were emitted, which is the
/// authority for fall-through.
pub struct ControlFlowGraph {
    pub blocks: StrMap<BasicBlock>,
    pub edges: StrMap<Vec<String>>,
    pub entry_block: Option<String>,
    pub block_order: Vec<String>,
}

/// The mathematical image of a [`ControlFlowGraph`]: its maps with their
/// key orders, the entry block, and the block order.
pub ghost struct CfgView {
    pub blocks: Map<Seq<char>, BlockView>,
    pub block_keys: Seq<Seq<char>>,
    pub edges: Map<Seq<char>, Seq<Seq<char>>>,
    pub edge_keys: Seq<Seq<char>>,
    pub entry: Option<Seq<char>>,
    pub order: Seq<Seq<char>>,
}

impl View for ControlFlowGraph {
    type V = CfgView;

    open spec fn view(&self) -> CfgView {
        CfgView {
            blocks: self.blocks@,
            block_keys: self.blocks.key_seq(),
            edges: self.edges@,
            edge_keys: self.edges.key_seq(),
            entry: self.entry_block.deep_view(),
            order: self.block_order.deep_view(),
        }
    }
}

/// A control-flow graph agrees with the construction that spec functions
/// describe for the given instruction list.
pub open spec fn cfg_matches(cfg: ControlFlowGraph, instrs: Seq<InstrView>) -> bool {
    let bs = spec_partition(instrs);
    let nm = spec_block_names(bs);
    &&& cfg.blocks.wf()
    &&& cfg.edges.wf()
    &&& cfg.block_order.deep_view() == nm
    &&& cfg.blocks.key_seq() == nm
    &&& cfg.edges.key_seq() == nm
    &&& cfg.entry_block.deep_view() == (if nm.len() > 0 {
        Some(nm[0])
    } else {
        None::<Seq<char>>
    })
    &&& forall|i: int|
        0 <= i < nm.len() ==> cfg.blocks@[nm[i]] == (BlockView {
            idx: nm[i],
            instructions: spec_terminated_at(bs, nm, i),
        })
    &&& forall|i: int|
        0 <= i < nm.len() ==> cfg.edges@[nm[i]] == spec_edges_of(spec_terminated_at(bs, nm, i))
}

impl ControlFlowGraph {
    /// An empty control-flow graph.
    pub fn new() -> (r: Self)
        ensures
            r.blocks.wf(),
            r.edges.wf(),
            r.blocks@ == Map::<Seq<char>, BlockView>::empty(),
            r.edges@ == Map::<Seq<char>, Seq<Seq<char>>>::empty(),
            r.blocks.key_seq() == Seq::<Seq<char>>::empty(),
            r.edges.key_seq() == Seq::<Seq<char>>::empty(),
            r.entry_block is None,
            r.block_order@.len() == 0,
    {
        ControlFlowGraph {
            blocks: StrMap::new(),
            edges: StrMap::new(),
            entry_block: None,
            block_order: Vec::new(),
        }
    }

    /// Builds the control-flow graph of a function: partitions its
    /// instructions into blocks, inserts implicit terminators, and records
    /// successor edges. Block identifiers are pairwise distinct, and
    /// `block_order` enumerates exactly the keys of the block map.
    pub fn from_bril_function(function: &BrilFunction) -> (r: Self)
        requires
            function.instructions@.len() < usize::MAX,
        ensures
            cfg_matches(r, function.deep_view().instructions),
            r.block_order.deep_view().no_duplicates(),
            r.blocks@.dom() == r.block_order.deep_view().to_set(),
    {
        let mut cfg = ControlFlowGraph::new();
        cfg.build_blocks_from_function(function);
        proof {
            let iv = function.deep_view().instructions;
            let bs = spec_partition(iv);
            lemma_names_len(bs, bs.len() as int);
            lemma_names_distinct(bs, bs.len() as int);
        }
        cfg.add_terminators();
        cfg.build_edges();
        proof {
            let iv = function.deep_view().instructions;
            let bs = spec_partition(iv);
            let nm = spec_block_names(bs);
            assert(nm.len() == bs.len());
            cfg.blocks.lemma_dom();
            assert forall|i: int| 0 <= i < nm.len() implies cfg.blocks@[nm[i]] == (BlockView {
                idx: nm[i],
                instructions: spec_terminated_at(bs, nm, i),
            }) by {
                assert(spec_terminated_at(bs, nm, i) == spec_with_terminator(
                    bs[i],
                    i == bs.len() - 1,
                    if i + 1 < nm.len() {
                        nm[i + 1]
                    } else {
                        nm[i]
                    },
                ));
            }
        }
        cfg
    }
}

impl ControlFlowGraph {
    /// Seals the staged instructions as the next block: chooses its unique
    /// identifier, appends it to the block order, inserts it into the block
    /// map, and fixes the entry block if this is the first one.
    fn seal_block(&mut self, current_block: Vec<BrilInstruction>, used_names: &mut StrSet, block_counter: usize)
        requires
            old(self).blocks.wf(),
            old(used_names).wf(),
            old(used_names)@ == old(self).block_order.deep_view().to_set(),
            old(self).blocks.key_seq() == old(self).block_order.deep_view(),
            old(self).block_order.deep_view().no_duplicates(),
            old(self).block_order@.len() < usize::MAX,
            old(self).entry_block.deep_view() == (if old(self).block_order@.len() > 0 {
                Some(old(self).block_order.deep_view()[0])
            } else {
                None::<Seq<char>>
            }),
        ensures
            ({
                let chosen = spec_unique_name(
                    spec_block_name(current_block.deep_view(), fallback_name(block_counter as int)),
                    old(used_names)@,
                );
                &&& final(self).blocks.wf()
                &&& final(used_names).wf()
                &&& final(self).block_order.deep_view() == old(self).block_order.deep_view().push(
                    chosen,
                )
                &&& final(used_names)@ == old(used_names)@.insert(chosen)
                &&& final(self).blocks.key_seq() == old(self).blocks.key_seq().push(chosen)
                &&& final(self).blocks@ == old(self).blocks@.insert(
                    chosen,
                    BlockView { idx: chosen, instructions: current_block.deep_view() },
                )
                &&& final(self).block_order.deep_view().no_duplicates()
                &&& final(self).entry_block.deep_view() == Some(
                    final(self).block_order.deep_view()[0],
                )
                &&& final(self).edges == old(self).edges
            }),
    {
        let mut fallback = "b".to_owned();
        let ds = u64_digits(block_counter as u64);
        fallback.append(ds.as_str());
        proof {
            assert(fallback@ == fallback_name(block_counter as int));
            broadcast use vstd::seq_lib::seq_to_set_is_finite;

            old(self).block_order.deep_view().unique_seq_to_set();
        }
        let block = BasicBlock::new_with_unique_name(current_block, used_names, fallback.as_str());
        let ghost chosen = block@.idx;
        proof {
            lemma_unique_name_free(
                spec_block_name(block@.instructions, fallback@),
                old(used_names)@,
            );
            assert(!old(self).block_order.deep_view().to_set().contains(chosen));
            assert(!old(self).block_order.deep_view().contains(chosen));
            assert(!old(self).blocks.key_seq().contains(chosen));
        }
        if self.entry_block.is_none() {
            self.entry_block = Some(block.idx.clone());
        }
        self.block_order.push(block.idx.clone());
        proof {
            assert(self.block_order.deep_view() =~= old(self).block_order.deep_view().push(chosen));
            let ord = self.block_order.deep_view();
            let n = ord.len();
            assert forall|p: int, q: int| 0 <= p < q < n implies ord[p] != ord[q] by {
                if q < n - 1 {
                    assert(old(self).block_order.deep_view()[p] == ord[p]);
                    assert(old(self).block_order.deep_view()[q] == ord[q]);
                } else {
                    assert(ord[q] == chosen);
                    assert(old(self).block_order.deep_view()[p] == ord[p]);
                    if ord[p] == chosen {
                        assert(old(self).block_order.deep_view().contains(chosen));
                    }
                }
            }
        }
        self.blocks.set(block.idx.clone(), block);
    }
}

/// There is one chosen name per block position.
pub proof fn lemma_names_len(bs: Seq<Seq<InstrView>>, n: int)
    requires
        n >= 0,
    ensures
        names_upto(bs, n).len() == n,
    decreases n,
{
    if n > 0 {
        lemma_names_len(bs, n - 1);
    }
}

/// The first `n` chosen names depend only on the first `n` blocks.
pub proof fn lemma_names_prefix(bs1: Seq<Seq<InstrView>>, bs2: Seq<Seq<InstrView>>, n: int)
    requires
        n >= 0,
        forall|j: int| 0 <= j < n ==> bs1[j] == bs2[j],
    ensures
        names_upto(bs1, n) == names_upto(bs2, n),
    decreases n,
{
    if n > 0 {
        lemma_names_prefix(bs1, bs2, n - 1);
    }
}

impl ControlFlowGraph {
    /// Partitions the function's instruction list into named basic blocks,
    /// filling the block map, the block order, and the entry block.
    fn build_blocks_from_function(&mut self, function: &BrilFunction)
        requires
            function.instructions@.len() < usize::MAX,
            old(self).blocks.wf(),
            old(self).blocks@ == Map::<Seq<char>, BlockView>::empty(),
            old(self).blocks.key_seq() == Seq::<Seq<char>>::empty(),
            old(self).edges.wf(),
            old(self).edges.key_seq() == Seq::<Seq<char>>::empty(),
            old(self).entry_block is None,
            old(self).block_order@.len() == 0,
        ensures
            ({
                let bs = spec_partition(function.deep_view().instructions);
                let nm = spec_block_names(bs);
                &&& final(self).blocks.wf()
                &&& final(self).block_order.deep_view() == nm
                &&& final(self).blocks.key_seq() == nm
                &&& final(self).block_order.deep_view().no_duplicates()
                &&& final(self).entry_block.deep_view() == (if nm.len() > 0 {
                    Some(nm[0])
                } else {
                    None::<Seq<char>>
                })
                &&& forall|j: int|
                    0 <= j < nm.len() ==> final(self).blocks@[nm[j]] == (BlockView {
                        idx: nm[j],
                        instructions: bs[j],
                    })
                &&& final(self).edges == old(self).edges
            }),
    {
        let ghost iv = function.instructions.deep_view();
        let mut block_counter: usize = 0;
        let mut current_block: Vec<BrilInstruction> = Vec::new();
        let mut used_names = StrSet::new();
        let n = function.instructions.len();
        let mut i: usize = 0;
        proof {
            assert(current_block.deep_view() =~= Seq::<InstrView>::empty());
            assert(self.block_order.deep_view() =~= Seq::<Seq<char>>::empty());
            assert(self.block_order.deep_view().to_set() =~= Set::<Seq<char>>::empty());
            assert(used_names@ =~= self.block_order.deep_view().to_set());
        }
        while i < n
            invariant
                iv == function.instructions.deep_view(),
                n == function.instructions@.len(),
                iv.len() == n,
                n < usize::MAX,
                0 <= i <= n,
                self.blocks.wf(),
                used_names.wf(),
                current_block.deep_view() == partition_upto(iv, i as int).1,
                block_counter == partition_upto(iv, i as int).0.len(),
                block_counter + current_block@.len() <= i,
                current_block@.len() == current_block.deep_view().len(),
                self.block_order.deep_view() == names_upto(
                    partition_upto(iv, i as int).0,
                    block_counter as int,
                ),
                self.block_order@.len() == block_counter,
                used_names@ == self.block_order.deep_view().to_set(),
                self.blocks.key_seq() == self.block_order.deep_view(),
                self.block_order.deep_view().no_duplicates(),
                forall|j: int|
                    0 <= j < block_counter ==> self.blocks@[self.block_order.deep_view()[j]]
                        == (BlockView {
                        idx: self.block_order.deep_view()[j],
                        instructions: partition_upto(iv, i as int).0[j],
                    }),
                self.entry_block.deep_view() == (if block_counter > 0 {
                    Some(self.block_order.deep_view()[0])
                } else {
                    None::<Seq<char>>
                }),
                self.edges == old(self).edges,
            decreases n - i,
        {
            let instr = &function.instructions[i];
            let ghost done0 = partition_upto(iv, i as int).0;
            let ghost cur0 = partition_upto(iv, i as int).1;
            let ghost names0 = self.block_order.deep_view();
            proof {
                assert(iv[i as int] == function.instructions@[i as int]@);
                assert(partition_upto(iv, i + 1) == seal_step((done0, cur0), iv[i as int]));
            }
            if instr.has_label() {
                if current_block.len() > 0 {
                    let sealed = current_block;
                    current_block = Vec::new();
                    self.seal_block(sealed, &mut used_names, block_counter);
                    block_counter = block_counter + 1;
                    proof {
                        let done1 = partition_upto(iv, i + 1).0;
                        assert(done1 == done0.push(cur0));
                        lemma_names_prefix(done0, done1, block_counter - 1);
                        assert(names_upto(done1, block_counter as int) == names_upto(
                            done1,
                            block_counter - 1,
                        ).push(
                            spec_unique_name(
                                spec_block_name(done1[block_counter - 1], fallback_name(block_counter - 1)),
                                names_upto(done1, block_counter - 1).to_set(),
                            ),
                        ));
                        assert(self.block_order.deep_view() == names_upto(
                            done1,
                            block_counter as int,
                        ));
                        crate::smap::lemma_push_to_set(names0, self.block_order.deep_view().last());
                        assert(current_block.deep_view() =~= Seq::<InstrView>::empty());
                    }
                }
                current_block.push(instr.clone());
                proof {
                    assert(current_block.deep_view() =~= partition_upto(iv, i + 1).1);
                }
            } else {
                current_block.push(instr.clone());
                proof {
                    assert(current_block.deep_view() =~= partition_upto(iv, i as int).1.push(
                        iv[i as int],
                    ));
                }
                if is_terminator(instr) {
                    let sealed = current_block;
                    current_block = Vec::new();
                    self.seal_block(sealed, &mut used_names, block_counter);
                    block_counter = block_counter + 1;
                    proof {
                        let done1 = partition_upto(iv, i + 1).0;
                        assert(done1 == done0.push(cur0.push(iv[i as int])));
                        lemma_names_prefix(done0, done1, block_counter - 1);
                        crate::smap::lemma_push_to_set(names0, self.block_order.deep_view().last());
                        assert(current_block.deep_view() =~= Seq::<InstrView>::empty());
                        assert(partition_upto(iv, i + 1).1 =~= Seq::<InstrView>::empty());
                    }
                }
            }
            i = i + 1;
        }
        proof {
            assert(partition_upto(iv, iv.len() as int) == partition_upto(iv, n as int));
        }
        if current_block.len() > 0 {
            let ghost done0 = partition_upto(iv, n as int).0;
            let ghost cur0 = partition_upto(iv, n as int).1;
            let ghost names0 = self.block_order.deep_view();
            let ghost used0 = used_names@;
            let ghost blocks0 = self.blocks@;
            let ghost chosen = spec_unique_name(
                spec_block_name(cur0, fallback_name(block_counter as int)),
                used0,
            );
            let sealed = current_block;
            self.seal_block(sealed, &mut used_names, block_counter);
            proof {
                let bs = spec_partition(iv);
                let nm = spec_block_names(bs);
                assert(bs == done0.push(cur0));
                assert(bs.len() == block_counter + 1);
                lemma_names_prefix(done0, bs, block_counter as int);
                assert(bs[block_counter as int] == cur0);
                assert(names_upto(bs, block_counter + 1) == names_upto(
                    bs,
                    block_counter as int,
                ).push(chosen));
                assert(self.block_order.deep_view() == names0.push(chosen));
                assert(self.block_order.deep_view() == names_upto(bs, block_counter + 1));
                assert(nm == names_upto(bs, bs.len() as int));
                assert(self.block_order.deep_view() == nm);
                assert(self.blocks.key_seq() == nm);
                broadcast use vstd::seq_lib::seq_to_set_is_finite;

                assert forall|j: int| 0 <= j < nm.len() implies self.blocks@[nm[j]] == (BlockView {
                    idx: nm[j],
                    instructions: bs[j],
                }) by {
                    if j < block_counter {
                        assert(nm[j] == names0[j]);
                        assert(!used0.contains(chosen)) by {
                            crate::basic_block::lemma_unique_name_free(
                                spec_block_name(cur0, fallback_name(block_counter as int)),
                                used0,
                            );
                        }
                        assert(names0.contains(names0[j]));
                        assert(used0.contains(names0[j]));
                        assert(nm[j] != chosen);
                        assert(self.blocks@[nm[j]] == blocks0[nm[j]]);
                        assert(bs[j] == done0[j]);
                    } else {
                        assert(nm[j] == chosen);
                        assert(bs[j] == cur0);
                    }
                }
            }
        } else {
            proof {
                let bs = spec_partition(iv);
                assert(bs == partition_upto(iv, n as int).0);
            }
        }
    }
}

impl ControlFlowGraph {
    /// Walks the blocks in program order and appends a terminator to each
    /// block that lacks one: a `ret` for the final block, else a `jmp` to the
    /// next block in `block_order`.
    fn add_terminators(&mut self)
        requires
            old(self).blocks.wf(),
            old(self).blocks.key_seq() == old(self).block_order.deep_view(),
            old(self).block_order.deep_view().no_duplicates(),
            forall|j: int|
                0 <= j < old(self).block_order.deep_view().len() ==> old(self).blocks@[old(
                    self,
                ).block_order.deep_view()[j]].idx == old(self).block_order.deep_view()[j],
        ensures
            final(self).blocks.wf(),
            final(self).blocks.key_seq() == old(self).blocks.key_seq(),
            final(self).block_order == old(self).block_order,
            final(self).entry_block == old(self).entry_block,
            final(self).edges == old(self).edges,
            forall|j: int|
                0 <= j < old(self).block_order.deep_view().len() ==> final(self).blocks@[old(
                    self,
                ).block_order.deep_view()[j]] == (BlockView {
                    idx: old(self).block_order.deep_view()[j],
                    instructions: spec_with_terminator(
                        old(self).blocks@[old(self).block_order.deep_view()[j]].instructions,
                        j == old(self).block_order.deep_view().len() - 1,
                        if j + 1 < old(self).block_order.deep_view().len() {
                            old(self).block_order.deep_view()[j + 1]
                        } else {
                            old(self).block_order.deep_view()[j]
                        },
                    ),
                }),
    {
        let ghost blocks0 = old(self).blocks@;
        let ghost ord = old(self).block_order.deep_view();
        let n = self.block_order.len();
        let mut i: usize = 0;
        while i < n
            invariant
                0 <= i <= n,
                self.blocks.wf(),
                blocks0 == old(self).blocks@,
                ord == old(self).block_order.deep_view(),
                self.block_order == old(self).block_order,
                self.entry_block == old(self).entry_block,
                self.edges == old(self).edges,
                n == self.block_order@.len(),
                ord.len() == n,
                ord.no_duplicates(),
                self.blocks.key_seq() == old(self).blocks.key_seq(),
                old(self).blocks.key_seq() == ord,
                forall|j: int| 0 <= j < n ==> blocks0[#[trigger] ord[j]].idx == ord[j],
                forall|j: int|
                    i <= j < n ==> self.blocks@[#[trigger] ord[j]] == blocks0[ord[j]],
                forall|j: int|
                    0 <= j < i ==> self.blocks@[#[trigger] ord[j]] == (BlockView {
                        idx: ord[j],
                        instructions: spec_with_terminator(
                            blocks0[ord[j]].instructions,
                            j == n - 1,
                            if j + 1 < n {
                                ord[j + 1]
                            } else {
                                ord[j]
                            },
                        ),
                    }),
            decreases n - i,
        {
            let id = &self.block_order[i];
            proof {
                assert(id@ == ord[i as int]);
                self.blocks.lemma_dom();
                assert(self.blocks.key_seq().contains(ord[i as int]));
            }
            let needs_terminator = match self.blocks.get(id.as_str()) {
                Some(block) => match block.last() {
                    Some(last) => !is_terminator(last),
                    None => true,
                },
                None => {
                    proof {
                        assert(false);
                    }
                    true
                },
            };
            if needs_terminator {
                let updated = match self.blocks.get(id.as_str()) {
                    Some(block) => {
                        let mut nb = block.clone();
                        if i == n - 1 {
                            let mut ret_i = BrilInstruction::new();
                            ret_i.op = Some("ret".to_owned());
                            ret_i.args = Some(Vec::new());
                            proof {
                                assert(ret_i.args.deep_view() =~= Some(Seq::<Seq<char>>::empty()));
                                assert(ret_i@ == ret_instr());
                            }
                            nb.push_instruction(ret_i);
                        } else {
                            let target = self.block_order[i + 1].clone();
                            let mut jmp_i = BrilInstruction::new();
                            jmp_i.op = Some("jmp".to_owned());
                            let mut targets: Vec<String> = Vec::new();
                            targets.push(target);
                            jmp_i.labels = Some(targets);
                            proof {
                                assert(jmp_i.labels.deep_view() =~= Some(seq![ord[i + 1]]));
                                assert(jmp_i@ == jmp_instr(ord[i + 1]));
                            }
                            nb.push_instruction(jmp_i);
                        }
                        nb
                    },
                    None => {
                        proof {
                            assert(false);
                        }
                        BasicBlock::new(String::new(), Vec::new())
                    },
                };
                let key = self.block_order[i].clone();
                self.blocks.set(key, updated);
                proof {
                    assert(self.blocks.key_seq() == old(self).blocks.key_seq());
                }
            }
            proof {
                assert forall|j: int| 0 <= j < i + 1 implies self.blocks@[#[trigger] ord[j]]
                    == (BlockView {
                    idx: ord[j],
                    instructions: spec_with_terminator(
                        blocks0[ord[j]].instructions,
                        j == n - 1,
                        if j + 1 < n {
                            ord[j + 1]
                        } else {
                            ord[j]
                        },
                    ),
                }) by {
                    if j < i {
                        assert(ord[j] != ord[i as int]);
                    }
                }
            }
            i = i + 1;
        }
    }

    /// Fills the successor table: each block's successors are the targets its
    /// terminator declares, in order; `ret` and anything else contribute none.
    fn build_edges(&mut self)
        requires
            old(self).blocks.wf(),
            old(self).edges.wf(),
            old(self).edges.key_seq() == Seq::<Seq<char>>::empty(),
            old(self).blocks.key_seq().no_duplicates(),
        ensures
            final(self).edges.wf(),
            final(self).blocks == old(self).blocks,
            final(self).block_order == old(self).block_order,
            final(self).entry_block == old(self).entry_block,
            final(self).edges.key_seq() == old(self).blocks.key_seq(),
            forall|j: int|
                0 <= j < old(self).blocks.key_seq().len() ==> final(self).edges@[old(
                    self,
                ).blocks.key_seq()[j]] == spec_edges_of(
                    old(self).blocks@[old(self).blocks.key_seq()[j]].instructions,
                ),
    {
        let ghost ks = old(self).blocks.key_seq();
        let n = self.blocks.len();
        let mut i: usize = 0;
        while i < n
            invariant
                0 <= i <= n,
                self.blocks == old(self).blocks,
                self.block_order == old(self).block_order,
                self.entry_block == old(self).entry_block,
                self.blocks.wf(),
                self.edges.wf(),
                ks == old(self).blocks.key_seq(),
                ks.len() == n,
                ks.no_duplicates(),
                self.edges.key_seq() == ks.take(i as int),
                forall|j: int|
                    0 <= j < i ==> self.edges@[#[trigger] ks[j]] == spec_edges_of(
                        old(self).blocks@[ks[j]].instructions,
                    ),
            decreases n - i,
        {
            let key = self.blocks.key_at(i).clone();
            let block = self.blocks.val_at(i);
            proof {
                self.blocks.lemma_at(i as int);
            }
            let succ: Vec<String> = match block.last() {
                Some(last) => {
                    if crate::text::opt_str_is(&last.op, "jmp") || crate::text::opt_str_is(
                        &last.op,
                        "br",
                    ) {
                        match last.get_labels() {
                            Some(ls) => ls,
                            None => Vec::new(),
                        }
                    } else {
                        Vec::new()
                    }
                },
                None => Vec::new(),
            };
            proof {
                assert(succ.deep_view() =~= spec_edges_of(self.blocks@[ks[i as int]].instructions));
                assert(!ks.take(i as int).contains(ks[i as int]));
            }
            self.edges.set(key, succ);
            proof {
                assert(self.edges.key_seq() =~= ks.take(i + 1));
                assert forall|j: int| 0 <= j < i + 1 implies self.edges@[#[trigger] ks[j]]
                    == spec_edges_of(old(self).blocks@[ks[j]].instructions) by {
                    if j < i {
                        assert(ks[j] != ks[i as int]);
                    }
                }
            }
            i = i + 1;
        }
        proof {
            assert(self.edges.key_seq() =~= ks);
        }
    }
}

/// The labels carried by the instructions, in order.
pub open spec fn labels_of(instrs: Seq<InstrView>) -> Seq<Seq<char>>
    decreases instrs.len(),
{
    if instrs.len() == 0 {
        Seq::empty()
    } else {
        let rest = labels_of(instrs.drop_last());
        match instrs.last().label {
            Some(l) => rest.push(l),
            None => rest,
        }
    }
}

/// Whether every target of a control instruction is among the given names.
pub open spec fn targets_among(ls: Option<Seq<Seq<char>>>, names: Seq<Seq<char>>) -> bool {
    match ls {
        Some(l) => forall|t: int| 0 <= t < l.len() ==> names.contains(#[trigger] l[t]),
        None => true,
    }
}

/// The label a block derives its name from, when its first instruction
/// carries one.
pub open spec fn head_label(b: Seq<InstrView>) -> Seq<char> {
    match b[0].label {
        Some(l) => l,
        None => Seq::empty(),
    }
}

/// The leading labels of a sequence of blocks.
pub open spec fn heads_of(bs: Seq<Seq<InstrView>>) -> Seq<Seq<char>> {
    Seq::new(bs.len(), |j: int| head_label(bs[j]))
}

/// An instruction list on which every block begins with a label and every
/// branch resolves: the first instruction carries a label, any instruction
/// directly after an explicit terminator carries one, the labels are
/// pairwise distinct, and every target of a `jmp` or `br` is among the
/// labels.
pub open spec fn well_labeled(instrs: Seq<InstrView>) -> bool {
    &&& instrs.len() > 0 ==> instrs[0].label is Some
    &&& forall|i: int|
        0 <= i < instrs.len() - 1 && is_terminator_op(#[trigger] instrs[i]) ==> instrs[i
            + 1].label is Some
    &&& labels_of(instrs).no_duplicates()
    &&& forall|i: int|
        0 <= i < instrs.len() && ((#[trigger] instrs[i]).op == Some("jmp"@) || instrs[i].op
            == Some("br"@)) ==> targets_among(instrs[i].labels, labels_of(instrs))
}

/// On labeled input, partitioning yields only blocks that begin with a
/// labeled instruction; the leading labels, with the staging buffer's, are
/// exactly the labels seen so far; and every instruction of every block
/// comes from the input.
proof fn lemma_partition_labeled(instrs: Seq<InstrView>, n: int)
    requires
        0 <= n <= instrs.len(),
        instrs.len() > 0 ==> instrs[0].label is Some,
        forall|i: int|
            0 <= i < instrs.len() - 1 && is_terminator_op(#[trigger] instrs[i]) ==> instrs[i
                + 1].label is Some,
    ensures
        ({
            let (done, cur) = partition_upto(instrs, n);
            &&& forall|j: int|
                0 <= j < done.len() ==> (#[trigger] done[j]).len() > 0 && done[j][0].label
                    == Some(head_label(done[j]))
            &&& cur.len() > 0 ==> cur[0].label == Some(head_label(cur))
            &&& cur.len() == 0 ==> (n == 0 || is_terminator_op(instrs[n - 1]))
            &&& heads_of(done) + (if cur.len() > 0 {
                seq![head_label(cur)]
            } else {
                Seq::<Seq<char>>::empty()
            }) == labels_of(instrs.take(n))
            &&& forall|j: int, k: int|
                0 <= j < done.len() && 0 <= k < done[j].len() ==> instrs.contains(
                    #[trigger] done[j][k],
                )
            &&& forall|k: int| 0 <= k < cur.len() ==> instrs.contains(#[trigger] cur[k])
        }),
    decreases n,
{
    if n == 0 {
        let (done, cur) = partition_upto(instrs, 0);
        assert(heads_of(done) =~= Seq::<Seq<char>>::empty());
        assert(labels_of(instrs.take(0)) =~= Seq::<Seq<char>>::empty());
        assert(heads_of(done) + Seq::<Seq<char>>::empty() =~= labels_of(instrs.take(0)));
    } else {
        lemma_partition_labeled(instrs, n - 1);
        let (done0, cur0) = partition_upto(instrs, n - 1);
        let (done1, cur1) = partition_upto(instrs, n);
        let x = instrs[n - 1];
        let lbl0 = labels_of(instrs.take(n - 1));
        let lbl1 = labels_of(instrs.take(n));
        assert(instrs.take(n).drop_last() =~= instrs.take(n - 1));
        assert(instrs.take(n).last() == x);
        assert(instrs.contains(x));
        let curpart0: Seq<Seq<char>> = if cur0.len() > 0 {
            seq![head_label(cur0)]
        } else {
            Seq::empty()
        };
        if x.label is Some {
            assert(lbl1 == lbl0.push(x.label->0));
            if cur0.len() > 0 {
                assert(done1 == done0.push(cur0) && cur1 == seq![x]);
                assert(heads_of(done1) =~= heads_of(done0).push(head_label(cur0)));
                assert(head_label(cur1) == x.label->0);
                assert(heads_of(done1) + seq![head_label(cur1)] =~= (heads_of(done0) + curpart0).push(
                    x.label->0,
                ));
                assert forall|j: int, k: int|
                    0 <= j < done1.len() && 0 <= k < done1[j].len() implies
                    instrs.contains(#[trigger] done1[j][k]) by {
                    if j < done0.len() {
                        assert(instrs.contains(done0[j][k]));
                    } else {
                        assert(done1[j] == cur0);
                    }
                }
            } else {
                assert(done1 == done0 && cur1 == cur0.push(x));
                assert(cur1 =~= seq![x]);
                assert(heads_of(done1) + seq![head_label(cur1)] =~= (heads_of(done0) + curpart0).push(
                    x.label->0,
                ));
            }
        } else if x.op is Some && is_terminator_op(x) {
            assert(done1 == done0.push(cur0.push(x)) && cur1 =~= Seq::<InstrView>::empty());
            // The buffer cannot be empty here: it is empty only at the start
            // or right after a terminator, and then this instruction would
            // carry a label.
            assert(cur0.len() > 0) by {
                if cur0.len() == 0 {
                    if n - 1 == 0 {
                        assert(instrs[0].label is Some);
                    } else {
                        assert(is_terminator_op(instrs[n - 2]));
                        assert(instrs[n - 1].label is Some);
                    }
                }
            }
            assert(cur0.push(x)[0] == cur0[0]);
            assert(head_label(cur0.push(x)) == head_label(cur0));
            assert(lbl1 == lbl0);
            assert(heads_of(done1) =~= heads_of(done0).push(head_label(cur0)));
            assert(heads_of(done1) + Seq::<Seq<char>>::empty() =~= heads_of(done0) + curpart0);
            assert forall|j: int, k: int|
                0 <= j < done1.len() && 0 <= k < done1[j].len() implies instrs.contains(
                #[trigger] done1[j][k]) by {
                if j < done0.len() {
                    assert(instrs.contains(done0[j][k]));
                } else {
                    assert(done1[j] == cur0.push(x));
                    if k < cur0.len() {
                        assert(instrs.contains(cur0[k]));
                    }
                }
            }
        } else {
            assert(done1 == done0 && cur1 == cur0.push(x));
            assert(cur0.len() > 0) by {
                if cur0.len() == 0 {
                    if n - 1 == 0 {
                        assert(instrs[0].label is Some);
                    } else {
                        assert(is_terminator_op(instrs[n - 2]));
                        assert(instrs[n - 1].label is Some);
                    }
                }
            }
            assert(cur1[0] == cur0[0]);
            assert(head_label(cur1) == head_label(cur0));
            assert(lbl1 == lbl0);
            assert(heads_of(done1) + seq![head_label(cur1)] =~= heads_of(done0) + curpart0);
        }
    }
}

/// When every block leads with a label and the labels are pairwise
/// distinct, the chosen block names are exactly those leading labels.
proof fn lemma_names_are_heads(bs: Seq<Seq<InstrView>>, n: int)
    requires
        0 <= n <= bs.len(),
        forall|j: int|
            0 <= j < bs.len() ==> (#[trigger] bs[j]).len() > 0 && bs[j][0].label == Some(
                head_label(bs[j]),
            ),
        heads_of(bs).no_duplicates(),
    ensures
        names_upto(bs, n) == heads_of(bs).take(n),
    decreases n,
{
    if n > 0 {
        lemma_names_are_heads(bs, n - 1);
        let prev = names_upto(bs, n - 1);
        let b = bs[n - 1];
        assert(first_label(b) == b[0].label);
        let proposed = spec_block_name(b, fallback_name(n - 1));
        assert(proposed == head_label(b));
        assert(!prev.contains(proposed)) by {
            if prev.contains(proposed) {
                let j = choose|j: int| 0 <= j < n - 1 && prev[j] == proposed;
                assert(heads_of(bs)[j] == heads_of(bs)[n - 1]);
            }
        }
        assert(!prev.to_set().contains(proposed)) by {
            if prev.to_set().contains(proposed) {
                assert(prev.contains(proposed));
            }
        }
        assert(spec_unique_name(proposed, prev.to_set()) == proposed);
        assert(names_upto(bs, n) =~= heads_of(bs).take(n));
    } else {
        assert(names_upto(bs, 0) =~= heads_of(bs).take(0));
    }
}

/// On labeled input every successor label of every block resolves: for each
/// block, each target in its successor list is the identifier of a block of
/// the graph. (A synthesized `ret` contributes no successors at all.)
pub proof fn lemma_edges_closed(instrs: Seq<InstrView>)
    requires
        well_labeled(instrs),
    ensures
        ({
            let bs = spec_partition(instrs);
            let nm = spec_block_names(bs);
            forall|i: int, t: int|
                0 <= i < nm.len() && 0 <= t < spec_edges_of(
                    spec_terminated_at(bs, nm, i),
                ).len() ==> nm.contains(#[trigger] spec_edges_of(spec_terminated_at(bs, nm, i))[t])
        }),
{
    let bs = spec_partition(instrs);
    let nm = spec_block_names(bs);
    let nn = instrs.len() as int;
    lemma_partition_labeled(instrs, nn);
    let (done, cur) = partition_upto(instrs, nn);
    assert(instrs.take(nn) =~= instrs);
    let heads = heads_of(bs);
    assert(heads == labels_of(instrs)) by {
        if cur.len() > 0 {
            assert(bs == done.push(cur));
            assert(heads_of(bs) =~= heads_of(done) + seq![head_label(cur)]);
        } else {
            assert(bs == done);
            assert(heads_of(bs) =~= heads_of(done) + Seq::<Seq<char>>::empty());
        }
    }
    assert forall|j: int|
        0 <= j < bs.len() implies (#[trigger] bs[j]).len() > 0 && bs[j][0].label == Some(
        head_label(bs[j]),
    ) by {
        if cur.len() > 0 && j == bs.len() - 1 {
            assert(bs[j] == cur);
        } else {
            assert(bs[j] == done[j]);
        }
    }
    assert forall|j: int, k: int|
        0 <= j < bs.len() && 0 <= k < bs[j].len() implies instrs.contains(
        #[trigger] bs[j][k]) by {
        if cur.len() > 0 && j == bs.len() - 1 {
            assert(bs[j] == cur);
        } else {
            assert(bs[j] == done[j]);
        }
    }
    lemma_names_are_heads(bs, bs.len() as int);
    assert(heads.take(bs.len() as int) =~= heads);
    assert(nm == heads);
    lemma_names_len(bs, bs.len() as int);
    assert forall|i: int, t: int|
        0 <= i < nm.len() && 0 <= t < spec_edges_of(
            spec_terminated_at(bs, nm, i),
        ).len() implies nm.contains(#[trigger] spec_edges_of(spec_terminated_at(bs, nm, i))[t]) by {
        let b = bs[i];
        let tb = spec_terminated_at(bs, nm, i);
        if b.len() > 0 && is_terminator_op(b.last()) {
            assert(tb == b);
            let last = b.last();
            assert(instrs.contains(last));
            if last.op == Some("jmp"@) || last.op == Some("br"@) {
                let idx = choose|idx: int| 0 <= idx < instrs.len() && instrs[idx] == last;
                assert(targets_among(instrs[idx].labels, labels_of(instrs)));
                match last.labels {
                    Some(ls) => {
                        assert(labels_of(instrs).contains(ls[t]));
                    },
                    None => {},
                }
            }
        } else if i == bs.len() - 1 {
            assert(tb == b.push(ret_instr()));
            assert(tb.last() == ret_instr());
            assert(spec_edges_of(tb).len() == 0);
        } else {
            assert(tb == b.push(jmp_instr(nm[i + 1])));
            assert(tb.last() == jmp_instr(nm[i + 1]));
            assert(spec_edges_of(tb) == seq![nm[i + 1]]);
            assert(nm[i + 1] == spec_edges_of(tb)[t]);
        }
    }
}

/// After construction, every block is non-empty and its last instruction is
/// an explicit control transfer (`jmp`, `br` or `ret`).
pub proof fn lemma_blocks_terminated(instrs: Seq<InstrView>)
    ensures
        ({
            let bs = spec_partition(instrs);
            let nm = spec_block_names(bs);
            forall|i: int|
                0 <= i < nm.len() ==> (#[trigger] spec_terminated_at(bs, nm, i)).len() > 0
                    && is_terminator_op(spec_terminated_at(bs, nm, i).last())
        }),
{
    let bs = spec_partition(instrs);
    let nm = spec_block_names(bs);
    lemma_names_len(bs, bs.len() as int);
    assert forall|i: int| 0 <= i < nm.len() implies (#[trigger] spec_terminated_at(bs, nm, i)).len()
        > 0 && is_terminator_op(spec_terminated_at(bs, nm, i).last()) by {
        let b = bs[i];
        let t = spec_terminated_at(bs, nm, i);
        if b.len() > 0 && is_terminator_op(b.last()) {
            assert(t == b);
        } else if i == bs.len() - 1 {
            assert(t == b.push(ret_instr()));
            assert(t.last() == ret_instr());
        } else {
            assert(t.last() == jmp_instr(nm[i + 1]));
        }
    }
}

/// In a graph built from an instruction list, every block is non-empty and
/// ends in an explicit control transfer.
pub proof fn lemma_cfg_blocks_terminated(cfg: ControlFlowGraph, instrs: Seq<InstrView>)
    requires
        cfg_matches(cfg, instrs),
    ensures
        forall|b: Seq<char>|
            cfg.blocks@.dom().contains(b) ==> (#[trigger] cfg.blocks@[b]).instructions.len() > 0
                && is_terminator_op(cfg.blocks@[b].instructions.last()),
{
    let bs = spec_partition(instrs);
    let nm = spec_block_names(bs);
    lemma_names_len(bs, bs.len() as int);
    lemma_blocks_terminated(instrs);
    cfg.blocks.lemma_dom();
    assert forall|b: Seq<char>| cfg.blocks@.dom().contains(b) implies (
    #[trigger] cfg.blocks@[b]).instructions.len() > 0 && is_terminator_op(
        cfg.blocks@[b].instructions.last(),
    ) by {
        assert(nm.to_set().contains(b));
        let i = choose|i: int| 0 <= i < nm.len() && nm[i] == b;
        assert(cfg.blocks@[nm[i]].instructions == spec_terminated_at(bs, nm, i));
    }
}

/// In a graph built from labeled input, every successor label of every
/// block is itself a key of the block map.
pub proof fn lemma_cfg_edges_closed(cfg: ControlFlowGraph, instrs: Seq<InstrView>)
    requires
        cfg_matches(cfg, instrs),
        well_labeled(instrs),
    ensures
        forall|b: Seq<char>, t: int|
            cfg.edges@.dom().contains(b) && 0 <= t < cfg.edges@[b].len()
                ==> cfg.blocks@.dom().contains(#[trigger] cfg.edges@[b][t]),
{
    let bs = spec_partition(instrs);
    let nm = spec_block_names(bs);
    lemma_names_len(bs, bs.len() as int);
    lemma_edges_closed(instrs);
    cfg.blocks.lemma_dom();
    cfg.edges.lemma_dom();
    assert forall|b: Seq<char>, t: int|
        cfg.edges@.dom().contains(b) && 0 <= t < cfg.edges@[b].len() implies
        cfg.blocks@.dom().contains(#[trigger] cfg.edges@[b][t]) by {
        assert(nm.to_set().contains(b));
        let i = choose|i: int| 0 <= i < nm.len() && nm[i] == b;
        assert(cfg.edges@[nm[i]] == spec_edges_of(spec_terminated_at(bs, nm, i)));
        assert(nm.contains(spec_edges_of(spec_terminated_at(bs, nm, i))[t]));
        assert(nm.to_set().contains(cfg.edges@[b][t]));
    }
}

/// A block whose proposed name is already taken, while the proposal with
/// `1` appended is not, is renamed to the latter. Every reference the
/// construction makes to the block — its key, its slot in `block_order`,
/// the fall-through `jmp` of its predecessor — uses the renamed identifier,
/// since `cfg_matches` routes them all through the same chosen name.
pub proof fn lemma_collision_renamed(bs: Seq<Seq<InstrView>>, j: int)
    requires
        0 <= j < bs.len(),
        names_upto(bs, j).to_set().contains(spec_block_name(bs[j], fallback_name(j))),
        !names_upto(bs, j).to_set().contains(
            spec_block_name(bs[j], fallback_name(j)) + spec_digits(1),
        ),
    ensures
        names_upto(bs, j + 1).last() == spec_block_name(bs[j], fallback_name(j)) + spec_digits(1),
{
    broadcast use vstd::seq_lib::seq_to_set_is_finite;

    let prev = names_upto(bs, j);
    let p = spec_block_name(bs[j], fallback_name(j));
    assert(crate::basic_block::candidate_name(p, 1) == p + spec_digits(1));
    assert(crate::basic_block::spec_fresh_from(p, prev.to_set(), 1) == p + spec_digits(1));
    assert(spec_unique_name(p, prev.to_set()) == p + spec_digits(1));
}

/// The names chosen for distinct block positions are pairwise distinct.
pub proof fn lemma_names_distinct(bs: Seq<Seq<InstrView>>, n: int)
    requires
        0 <= n <= bs.len(),
    ensures
        names_upto(bs, n).no_duplicates(),
    decreases n,
{
    broadcast use vstd::seq_lib::seq_to_set_is_finite;

    if n > 0 {
        lemma_names_distinct(bs, n - 1);
        let prev = names_upto(bs, n - 1);
        let chosen = spec_unique_name(spec_block_name(bs[n - 1], fallback_name(n - 1)), prev.to_set());
        lemma_unique_name_free(spec_block_name(bs[n - 1], fallback_name(n - 1)), prev.to_set());
        assert(!prev.to_set().contains(chosen));
        assert(!prev.contains(chosen));
        let cur = names_upto(bs, n);
        assert(cur == prev.push(chosen));
        assert forall|p: int, q: int| 0 <= p < q < cur.len() implies cur[p] != cur[q] by {
            if q < cur.len() - 1 {
                assert(prev[p] == cur[p] && prev[q] == cur[q]);
            } else {
                assert(cur[q] == chosen);
                assert(cur[p] == prev[p]);
                if cur[p] == chosen {
                    assert(prev.contains(chosen));
                }
            }
        }
    }
}

} // verus!
