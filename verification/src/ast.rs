//! The analyzed program: per-function control-flow graphs built from a
//! parsed program, and the dispatch of passes over its functions.

use vstd::prelude::*;
use crate::bril::{BrilFunction, BrilProgram, FuncView};
use crate::cfg::{CfgView, ControlFlowGraph, cfg_matches};

verus! {

/// One function under analysis: its name, its control-flow graph, and the
/// parsed function it was built from (kept for argument recovery).
pub struct FunctionAST {
    pub name: String,
    pub cfg: ControlFlowGraph,
    pub bril_function: BrilFunction,
}

/// The mathematical image of a [`FunctionAST`].
pub ghost struct FunctionAstView {
    pub name: Seq<char>,
    pub cfg: CfgView,
    pub bril: FuncView,
}

impl View for FunctionAST {
    type V = FunctionAstView;

    open spec fn view(&self) -> FunctionAstView {
        FunctionAstView {
            name: self.name@,
            cfg: self.cfg@,
            bril: self.bril_function.deep_view(),
        }
    }
}

impl FunctionAST {
    /// The containers of the function's graph are well-formed.
    pub open spec fn wf(self) -> bool {
        self.cfg.blocks.wf() && self.cfg.edges.wf()
    }
}

/// A transformation or analysis applied to one function at a time. A pass
/// declares, as a spec function, the image into which it turns a function;
/// `apply` is bound to produce exactly that image.
pub trait Pass {
    /// The image of a function under this pass.
    spec fn spec_apply(&self, f: FunctionAST) -> FunctionAstView;

    /// Processes one function; it may mutate the function's graph, and
    /// yields exactly the image this pass declares.
    fn apply(&self, function: &mut FunctionAST)
        requires
            old(function).wf(),
        ensures
            final(function).wf(),
            final(function)@ == self.spec_apply(*old(function)),
    ;
}

/// A program under analysis: an ordered sequence of functions.
pub struct ProgramAST {
    pub functions: Vec<FunctionAST>,
}

impl ProgramAST {
    /// Builds the per-function control-flow graphs of a parsed program.
    pub fn from_bril_program(bril_program: BrilProgram) -> (r: Self)
        requires
            forall|j: int|
                0 <= j < bril_program.functions@.len() ==> (
                #[trigger] bril_program.functions@[j]).instructions@.len() < usize::MAX,
        ensures
            r.functions@.len() == bril_program.functions@.len(),
            forall|j: int|
                0 <= j < r.functions@.len() ==> {
                    let f = #[trigger] r.functions@[j];
                    let src = bril_program.deep_view()[j];
                    &&& f.name@ == src.name
                    &&& f.bril_function.deep_view() == src
                    &&& cfg_matches(f.cfg, src.instructions)
                    &&& f.wf()
                },
    {
        let ghost pv = bril_program.deep_view();
        let mut remaining = bril_program.functions;
        let mut functions: Vec<FunctionAST> = Vec::new();
        proof {
            assert(remaining.deep_view() =~= pv.skip(0));
            assert(remaining@ =~= remaining@.skip(0));
        }
        let ghost all = remaining@;
        while remaining.len() > 0
            invariant
                all.len() == pv.len(),
                forall|j: int| 0 <= j < all.len() ==> (#[trigger] all[j]).deep_view() == pv[j],
                forall|j: int|
                    0 <= j < all.len() ==> (#[trigger] all[j]).instructions@.len() < usize::MAX,
                functions@.len() + remaining@.len() == all.len(),
                remaining@ =~= all.skip(functions@.len() as int),
                forall|j: int|
                    0 <= j < functions@.len() ==> {
                        let f = #[trigger] functions@[j];
                        &&& f.name@ == pv[j].name
                        &&& f.bril_function.deep_view() == pv[j]
                        &&& cfg_matches(f.cfg, pv[j].instructions)
                        &&& f.wf()
                    },
            decreases remaining@.len(),
        {
            let ghost done = functions@.len() as int;
            let bril_function = remaining.remove(0);
            proof {
                assert(bril_function == all[done]);
                assert(bril_function.deep_view() == pv[done]);
                assert(remaining@ =~= all.skip(done + 1));
            }
            let cfg = ControlFlowGraph::from_bril_function(&bril_function);
            let name = bril_function.name.clone();
            functions.push(FunctionAST { name, cfg, bril_function });
        }
        ProgramAST { functions }
    }

    /// Applies a pass to every function of the program, in order: each final
    /// function is the pass's image of the function that stood at its
    /// position; none is added, dropped or reordered.
    pub fn apply_pass<P: Pass>(&mut self, pass: &P)
        requires
            forall|j: int|
                0 <= j < old(self).functions@.len() ==> (#[trigger] old(self).functions@[j]).wf(),
        ensures
            final(self).functions@.len() == old(self).functions@.len(),
            forall|j: int|
                0 <= j < final(self).functions@.len() ==> (#[trigger] final(self).functions@[j]).wf(),
            forall|j: int|
                0 <= j < final(self).functions@.len() ==> (#[trigger] final(self).functions@[j])@
                    == pass.spec_apply(old(self).functions@[j]),
    {
        let n = self.functions.len();
        let mut i: usize = 0;
        while i < n
            invariant
                0 <= i <= n,
                n == self.functions@.len(),
                n == old(self).functions@.len(),
                forall|j: int| 0 <= j < n ==> (#[trigger] self.functions@[j]).wf(),
                forall|j: int|
                    i <= j < n ==> #[trigger] self.functions@[j] == old(self).functions@[j],
                forall|j: int|
                    0 <= j < i ==> (#[trigger] self.functions@[j])@ == pass.spec_apply(
                        old(self).functions@[j],
                    ),
            decreases n - i,
        {
            pass.apply(&mut self.functions[i]);
            i = i + 1;
        }
    }
}

} // verus!
