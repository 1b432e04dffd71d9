//! Local dead-code elimination: within one block, an instruction is kept iff
//! it has no destination or its destination is consumed by some instruction
//! of the same block.

use vstd::prelude::*;
use crate::ast::{FunctionAST, FunctionAstView, Pass};
use crate::basic_block::{BasicBlock, BlockView};
use crate::bril::InstrView;
use crate::cfg::CfgView;
use crate::smap::{StrSet, lemma_push_to_set};

verus! {

/// The variable names an instruction consumes; none when the field is absent.
pub open spec fn args_of(i: InstrView) -> Seq<Seq<char>> {
    match i.args {
        Some(a) => a,
        None => Seq::empty(),
    }
}

/// The set of variable names consumed anywhere in the block.
pub open spec fn spec_alive(instrs: Seq<InstrView>) -> Set<Seq<char>>
    decreases instrs.len(),
{
    if instrs.len() == 0 {
        Set::empty()
    } else {
        spec_alive(instrs.drop_last()).union(args_of(instrs.last()).to_set())
    }
}

/// Whether an instruction is retained: it has no destination, or its
/// destination is alive.
pub open spec fn spec_keep(i: InstrView, alive: Set<Seq<char>>) -> bool {
    match i.dest {
        Some(d) => alive.contains(d),
        None => true,
    }
}

/// The instructions retained against a given alive set, in order.
pub open spec fn spec_retained(instrs: Seq<InstrView>, alive: Set<Seq<char>>) -> Seq<InstrView>
    decreases instrs.len(),
{
    if instrs.len() == 0 {
        Seq::empty()
    } else {
        let prev = spec_retained(instrs.drop_last(), alive);
        if spec_keep(instrs.last(), alive) {
            prev.push(instrs.last())
        } else {
            prev
        }
    }
}

/// The result of one dead-code-elimination pass over a block's instructions.
pub open spec fn spec_dce(instrs: Seq<InstrView>) -> Seq<InstrView> {
    spec_retained(instrs, spec_alive(instrs))
}

/// Retention against a set that keeps every instruction changes nothing.
proof fn lemma_retained_all(instrs: Seq<InstrView>, alive: Set<Seq<char>>)
    requires
        forall|j: int| 0 <= j < instrs.len() ==> spec_keep(#[trigger] instrs[j], alive),
    ensures
        spec_retained(instrs, alive) == instrs,
    decreases instrs.len(),
{
    if instrs.len() > 0 {
        lemma_retained_all(instrs.drop_last(), alive);
        assert(spec_keep(instrs.last(), alive));
        assert(instrs.drop_last().push(instrs.last()) =~= instrs);
    }
}

/// Eliminating dead code is idempotent on every block where each survivor's
/// destination is still consumed among the survivors; a second pass then
/// removes nothing.
pub proof fn lemma_dce_idempotent(instrs: Seq<InstrView>)
    requires
        forall|j: int|
            0 <= j < spec_dce(instrs).len() ==> spec_keep(
                #[trigger] spec_dce(instrs)[j],
                spec_alive(spec_dce(instrs)),
            ),
    ensures
        spec_dce(spec_dce(instrs)) == spec_dce(instrs),
{
    lemma_retained_all(spec_dce(instrs), spec_alive(spec_dce(instrs)));
}

/// Implements local dead code elimination.
pub struct DeadCodeElimination;

impl DeadCodeElimination {
    /// A dead-code-elimination pass.
    pub fn new() -> (r: Self)
    {
        DeadCodeElimination
    }

    /// Removes from the block every instruction whose destination no
    /// instruction of the block consumes; instructions without a destination
    /// (terminators among them) always remain.
    pub fn local_dce(&self, block: &mut BasicBlock)
        ensures
            final(block)@.idx == old(block)@.idx,
            final(block)@.instructions == spec_dce(old(block)@.instructions),
    {
        let ghost iv = block@.instructions;
        let n = block.instructions.len();
        let mut alive = StrSet::new();
        let mut i: usize = 0;
        proof {
            assert(iv.take(0) =~= Seq::<InstrView>::empty());
            assert(alive@ =~= spec_alive(iv.take(0)));
        }
        while i < n
            invariant
                0 <= i <= n,
                n == block.instructions@.len(),
                iv == block@.instructions,
                iv.len() == n,
                alive.wf(),
                alive@ == spec_alive(iv.take(i as int)),
            decreases n - i,
        {
            proof {
                assert(iv[i as int] == block.instructions@[i as int]@);
                assert(iv.take(i + 1).drop_last() =~= iv.take(i as int));
                assert(iv.take(i + 1).last() == iv[i as int]);
            }
            match block.instructions[i].get_args() {
                Some(args) => {
                    let m = args.len();
                    let mut k: usize = 0;
                    proof {
                        assert(args.deep_view().take(0) =~= Seq::<Seq<char>>::empty());
                        assert(args.deep_view().take(0).to_set() =~= Set::<Seq<char>>::empty());
                        assert(alive@ =~= spec_alive(iv.take(i as int)).union(
                            args.deep_view().take(0).to_set(),
                        ));
                    }
                    while k < m
                        invariant
                            0 <= k <= m,
                            m == args@.len(),
                            args.deep_view() =~= args_of(iv[i as int]),
                            iv.len() == n,
                            i < n,
                            alive.wf(),
                            alive@ == spec_alive(iv.take(i as int)).union(
                                args.deep_view().take(k as int).to_set(),
                            ),
                        decreases m - k,
                    {
                        alive.insert(args[k].clone());
                        proof {
                            let av = args.deep_view();
                            assert(av.take(k + 1) =~= av.take(k as int).push(av[k as int]));
                            lemma_push_to_set(av.take(k as int), av[k as int]);
                            assert(args@[k as int]@ == av[k as int]);
                            assert(alive@ =~= spec_alive(iv.take(i as int)).union(
                                av.take(k + 1).to_set(),
                            ));
                        }
                        k = k + 1;
                    }
                    proof {
                        let av = args.deep_view();
                        assert(av.take(m as int) =~= av);
                        assert(alive@ =~= spec_alive(iv.take(i + 1)));
                    }
                },
                None => {
                    proof {
                        assert(args_of(iv[i as int]).to_set() =~= Set::<Seq<char>>::empty());
                        assert(alive@ =~= spec_alive(iv.take(i + 1)));
                    }
                },
            }
            i = i + 1;
        }
        proof {
            assert(iv.take(n as int) =~= iv);
        }
        let mut kept: Vec<crate::bril::BrilInstruction> = Vec::new();
        let mut j: usize = 0;
        proof {
            assert(kept.deep_view() =~= spec_retained(iv.take(0), spec_alive(iv)));
        }
        while j < n
            invariant
                0 <= j <= n,
                n == block.instructions@.len(),
                iv == block@.instructions,
                iv.len() == n,
                alive.wf(),
                alive@ == spec_alive(iv),
                kept.deep_view() == spec_retained(iv.take(j as int), spec_alive(iv)),
            decreases n - j,
        {
            proof {
                assert(iv[j as int] == block.instructions@[j as int]@);
                assert(iv.take(j + 1).drop_last() =~= iv.take(j as int));
                assert(iv.take(j + 1).last() == iv[j as int]);
            }
            let keep = match block.instructions[j].get_dest() {
                Some(d) => alive.contains(d),
                None => true,
            };
            if keep {
                kept.push(block.instructions[j].clone());
                proof {
                    assert(kept.deep_view() =~= spec_retained(iv.take(j + 1), spec_alive(iv)));
                }
            }
            j = j + 1;
        }
        proof {
            assert(iv.take(n as int) =~= iv);
        }
        block.instructions = kept;
    }
}

impl Pass for DeadCodeElimination {
    /// The image of a function under this pass: every block's instruction
    /// list filtered by the local retention rule, each block independently;
    /// block identifiers, key order, edges, entry block, block order, name
    /// and the parsed function stay as they were.
    open spec fn spec_apply(&self, f: FunctionAST) -> FunctionAstView {
        FunctionAstView {
            name: f.name@,
            bril: f.bril_function.deep_view(),
            cfg: CfgView {
                blocks: Map::new(
                    |k: Seq<char>| f.cfg.blocks@.dom().contains(k),
                    |k: Seq<char>|
                        BlockView {
                            idx: f.cfg.blocks@[k].idx,
                            instructions: spec_dce(f.cfg.blocks@[k].instructions),
                        },
                ),
                block_keys: f.cfg.blocks.key_seq(),
                edges: f.cfg.edges@,
                edge_keys: f.cfg.edges.key_seq(),
                entry: f.cfg.entry_block.deep_view(),
                order: f.cfg.block_order.deep_view(),
            },
        }
    }

    /// Runs local dead-code elimination over every block of the function.
    fn apply(&self, function: &mut FunctionAST) {
        let ghost f0 = *old(function);
        let ghost ks = function.cfg.blocks.key_seq();
        let n = function.cfg.blocks.len();
        let mut i: usize = 0;
        while i < n
            invariant
                0 <= i <= n,
                f0 == *old(function),
                f0.wf(),
                function.cfg.blocks.wf(),
                function.cfg.edges == f0.cfg.edges,
                function.cfg.entry_block == f0.cfg.entry_block,
                function.cfg.block_order == f0.cfg.block_order,
                function.name == f0.name,
                function.bril_function == f0.bril_function,
                ks == f0.cfg.blocks.key_seq(),
                function.cfg.blocks.key_seq() == ks,
                n == ks.len(),
                forall|j: int|
                    i <= j < n ==> function.cfg.blocks@[#[trigger] ks[j]] == f0.cfg.blocks@[ks[j]],
                forall|j: int|
                    0 <= j < i ==> function.cfg.blocks@[#[trigger] ks[j]] == (BlockView {
                        idx: f0.cfg.blocks@[ks[j]].idx,
                        instructions: spec_dce(f0.cfg.blocks@[ks[j]].instructions),
                    }),
            decreases n - i,
        {
            proof {
                function.cfg.blocks.lemma_keys_distinct();
                function.cfg.blocks.lemma_at(i as int);
            }
            let mut b = function.cfg.blocks.val_at(i).clone();
            let key = function.cfg.blocks.key_at(i).clone();
            proof {
                assert(b@ == function.cfg.blocks@[ks[i as int]]);
                assert(b@ == f0.cfg.blocks@[ks[i as int]]);
            }
            self.local_dce(&mut b);
            function.cfg.blocks.set(key, b);
            proof {
                assert(ks.contains(ks[i as int]));
                assert(function.cfg.blocks.key_seq() == ks);
                assert forall|j: int| 0 <= j < i + 1 implies function.cfg.blocks@[
                    #[trigger] ks[j]] == (BlockView {
                    idx: f0.cfg.blocks@[ks[j]].idx,
                    instructions: spec_dce(f0.cfg.blocks@[ks[j]].instructions),
                }) by {
                    if j < i {
                        assert(ks[j] != ks[i as int]);
                    }
                }
                assert forall|j: int| i + 1 <= j < n implies function.cfg.blocks@[#[trigger] ks[j]]
                    == f0.cfg.blocks@[ks[j]] by {
                    assert(ks[j] != ks[i as int]);
                }
            }
            i = i + 1;
        }
        proof {
            let image = self.spec_apply(f0);
            function.cfg.blocks.lemma_dom();
            f0.cfg.blocks.lemma_dom();
            assert forall|k: Seq<char>|
                function.cfg.blocks@.dom().contains(k) <==> image.cfg.blocks.dom().contains(
                k,
            ) by {}
            assert forall|k: Seq<char>| image.cfg.blocks.dom().contains(k) implies
                function.cfg.blocks@[k] == image.cfg.blocks[k] by {
                assert(ks.to_set().contains(k));
                let j = choose|j: int| 0 <= j < ks.len() && ks[j] == k;
                assert(function.cfg.blocks@[ks[j]] == (BlockView {
                    idx: f0.cfg.blocks@[ks[j]].idx,
                    instructions: spec_dce(f0.cfg.blocks@[ks[j]].instructions),
                }));
            }
            assert(function.cfg.blocks@ =~= image.cfg.blocks);
            assert(function@.cfg == image.cfg);
            assert(function@ == image);
        }
    }
}

} // verus!
