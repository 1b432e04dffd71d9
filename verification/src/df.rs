//! Constant-propagation dataflow analysis: which variables have statically
//! knowable constant values? A monotone worklist iteration over a
//! three-point lattice per variable, with integer constant folding on a
//! fixed set of arithmetic and comparison operators.

use vstd::prelude::*;
use crate::basic_block::BasicBlock;
use crate::bril::{BrilArg, BrilValue, BrilValueView, InstrView, ArgView};
use crate::cfg::ControlFlowGraph;
use crate::smap::StrMap;
use crate::text::{opt_str_is, parse_int, spec_parse_int, str_eq};

verus! {

/// A per-block analysis state: a map from variable name to lattice element.
/// Absent keys are implicitly `Undef`.
pub type VarMap = StrMap<State>;

/// One point of the constant-propagation lattice, tracked per variable.
///
/// `Undef` is the bottom element (no assignment observed on any incoming
/// path), `NAC` ("not a constant") is the top element, and `Const(v)` means
/// the variable provably holds the 64-bit signed integer `v` on every path
/// reaching the program point.
#[derive(Clone, Copy, Debug, PartialEq, Eq, Hash, Structural)]
pub enum State {
    Undef,
    Const(i64),
    NAC,
}

impl State {
    /// The lattice meet: combines the facts of two incoming paths, moving
    /// toward `NAC`. `Undef` is the identity; two equal constants stay that
    /// constant; two different constants, or anything with `NAC`, give `NAC`.
    pub open spec fn spec_meet(self, other: State) -> State {
        match (self, other) {
            (State::Undef, o) => o,
            (s, State::Undef) => s,
            (State::Const(a), State::Const(b)) => if a == b {
                State::Const(a)
            } else {
                State::NAC
            },
            _ => State::NAC,
        }
    }

    /// Meet operation for the lattice join of two per-variable states.
    pub fn meet(&self, other: &State) -> (r: State)
        ensures
            r == self.spec_meet(*other),
    {
        match (*self, *other) {
            (State::Undef, o) => o,
            (s, State::Undef) => s,
            (State::Const(val1), State::Const(val2)) => if val1 == val2 {
                State::Const(val1)
            } else {
                State::NAC
            },
            (State::NAC, _) | (_, State::NAC) => State::NAC,
        }
    }
}

impl DeepView for State {
    type V = State;

    open spec fn deep_view(&self) -> State {
        *self
    }
}

/// The state of a variable in an analysis map; a variable without an entry
/// is `Undef`.
pub open spec fn state_at(m: Map<Seq<char>, State>, k: Seq<char>) -> State {
    if m.dom().contains(k) {
        m[k]
    } else {
        State::Undef
    }
}

/// The meet operation is commutative.
pub proof fn lemma_meet_commutative(a: State, b: State)
    ensures
        a.spec_meet(b) == b.spec_meet(a),
{
}

/// The meet operation is associative.
pub proof fn lemma_meet_associative(a: State, b: State, c: State)
    ensures
        a.spec_meet(b).spec_meet(c) == a.spec_meet(b.spec_meet(c)),
{
}

/// The meet operation is idempotent.
pub proof fn lemma_meet_idempotent(a: State)
    ensures
        a.spec_meet(a) == a,
{
}

/// Whether an operation participates in integer constant folding.
pub open spec fn spec_foldable(op: Seq<char>) -> bool {
    ||| op == "add"@
    ||| op == "sub"@
    ||| op == "mul"@
    ||| op == "div"@
    ||| op == "mod"@
    ||| op == "eq"@
    ||| op == "lt"@
    ||| op == "gt"@
    ||| op == "le"@
    ||| op == "ge"@
    ||| op == "ne"@
}

/// The folded state of a binary operation on two integer constants.
/// Arithmetic wraps at 64 bits; division and remainder truncate toward zero
/// (the meaning `checked_div` and `checked_rem` carry), fold by zero to
/// `NAC` rather than failing, and wrap on the one overflowing quotient;
/// comparisons fold to `1` or `0`.
pub open spec fn spec_fold(op: Seq<char>, a: i64, b: i64) -> State {
    if op == "add"@ {
        State::Const(vstd::wrapping::i64_specs::wrapping_add(a, b))
    } else if op == "sub"@ {
        State::Const(vstd::wrapping::i64_specs::wrapping_sub(a, b))
    } else if op == "mul"@ {
        State::Const(vstd::wrapping::i64_specs::wrapping_mul(a, b))
    } else if op == "div"@ {
        if b == 0 {
            State::NAC
        } else {
            match a.checked_div(b) {
                Some(q) => State::Const(q),
                None => State::Const(i64::MIN),
            }
        }
    } else if op == "mod"@ {
        if b == 0 {
            State::NAC
        } else {
            match a.checked_rem(b) {
                Some(q) => State::Const(q),
                None => State::Const(0),
            }
        }
    } else if op == "eq"@ {
        State::Const(if a == b { 1 } else { 0 })
    } else if op == "lt"@ {
        State::Const(if a < b { 1 } else { 0 })
    } else if op == "gt"@ {
        State::Const(if a > b { 1 } else { 0 })
    } else if op == "le"@ {
        State::Const(if a <= b { 1 } else { 0 })
    } else if op == "ge"@ {
        State::Const(if a >= b { 1 } else { 0 })
    } else if op == "ne"@ {
        State::Const(if a != b { 1 } else { 0 })
    } else {
        State::NAC
    }
}

/// The folded state of an operation over a list of argument states: exactly
/// two integer constants fold by the operator table; anything else is `NAC`.
pub open spec fn spec_fold_args(op: Seq<char>, sts: Seq<State>) -> State {
    if sts.len() != 2 {
        State::NAC
    } else {
        match (sts[0], sts[1]) {
            (State::Const(a), State::Const(b)) => spec_fold(op, a, b),
            _ => State::NAC,
        }
    }
}

/// The state a `const` instruction assigns: an integer literal, or a text
/// spelling a signed 64-bit decimal, yields that constant; booleans and
/// anything else yield `NAC`.
pub open spec fn spec_const_state(v: Option<BrilValueView>) -> State {
    match v {
        Some(BrilValueView::Int(x)) => State::Const(x),
        Some(BrilValueView::Text(s)) => match spec_parse_int(s) {
            Some(x) => State::Const(x),
            None => State::NAC,
        },
        _ => State::NAC,
    }
}

/// The state an instruction assigns to its destination, read against the
/// running map `m`: `const` by its literal; `id` by its single argument's
/// state; a foldable operation typed `int` by the folding table over its
/// arguments' states; anything else `NAC`.
pub open spec fn spec_step_state(m: Map<Seq<char>, State>, i: InstrView) -> State {
    match i.op {
        Some(op) => {
            if op == "const"@ {
                spec_const_state(i.value)
            } else if op == "id"@ {
                match i.args {
                    Some(a) => if a.len() == 1 {
                        state_at(m, a[0])
                    } else {
                        State::NAC
                    },
                    None => State::NAC,
                }
            } else if spec_foldable(op) {
                if i.typ == Some("int"@) {
                    match i.args {
                        Some(a) => {
                            if a.len() == 2 {
                                match (state_at(m, a[0]), state_at(m, a[1])) {
                                    (State::Const(x), State::Const(y)) => spec_fold(op, x, y),
                                    _ => State::NAC,
                                }
                            } else {
                                State::NAC
                            }
                        },
                        None => State::NAC,
                    }
                } else {
                    State::NAC
                }
            } else {
                State::NAC
            }
        },
        None => State::NAC,
    }
}

/// One instruction's effect on the analysis map: an instruction without a
/// destination changes nothing; one with a destination overwrites its entry.
pub open spec fn spec_transfer_step(m: Map<Seq<char>, State>, i: InstrView) -> Map<
    Seq<char>,
    State,
> {
    match i.dest {
        Some(d) => m.insert(d, spec_step_state(m, i)),
        None => m,
    }
}

/// The transfer function of a block: the input map threaded through every
/// instruction in order.
pub open spec fn spec_transfer(instrs: Seq<InstrView>, m: Map<Seq<char>, State>) -> Map<
    Seq<char>,
    State,
>
    decreases instrs.len(),
{
    if instrs.len() == 0 {
        m
    } else {
        spec_transfer_step(spec_transfer(instrs.drop_last(), m), instrs.last())
    }
}

/// The left-to-right meet of one variable's states across predecessor maps.
pub open spec fn meet_over(preds: Seq<Map<Seq<char>, State>>, k: Seq<char>) -> State
    decreases preds.len(),
{
    if preds.len() == 0 {
        State::Undef
    } else {
        meet_over(preds.drop_last(), k).spec_meet(state_at(preds.last(), k))
    }
}

/// The pointwise meet of the predecessor maps over the union of their keys;
/// a variable missing from a predecessor counts as `Undef`, the identity of
/// the meet. No predecessors yield the empty map.
pub open spec fn spec_merge(preds: Seq<Map<Seq<char>, State>>) -> Map<Seq<char>, State> {
    if preds.len() == 0 {
        Map::empty()
    } else {
        Map::new(
            |k: Seq<char>|
                exists|i: int| 0 <= i < preds.len() && (#[trigger] preds[i]).dom().contains(k),
            |k: Seq<char>| meet_over(preds, k),
        )
    }
}

/// The union of the domains of the first `t` maps.
pub open spec fn doms_upto(preds: Seq<Map<Seq<char>, State>>, t: int) -> Set<Seq<char>>
    decreases t,
{
    if t <= 0 {
        Set::empty()
    } else {
        doms_upto(preds, t - 1).union(preds[t - 1].dom())
    }
}

/// A name is in the union of the domains iff some map's domain holds it.
proof fn lemma_doms_upto(preds: Seq<Map<Seq<char>, State>>, t: int, k: Seq<char>)
    requires
        0 <= t <= preds.len(),
    ensures
        doms_upto(preds, t).contains(k) <==> exists|i: int|
            0 <= i < t && (#[trigger] preds[i]).dom().contains(k),
    decreases t,
{
    if t > 0 {
        lemma_doms_upto(preds, t - 1, k);
        if preds[t - 1].dom().contains(k) {
            assert(exists|i: int| 0 <= i < t && (#[trigger] preds[i]).dom().contains(k));
        }
    }
}

/// Decides whether a vector of strings holds the given text.
fn vec_contains_str(v: &Vec<String>, s: &str) -> (r: bool)
    ensures
        r == v.deep_view().contains(s@),
{
    let mut i: usize = 0;
    while i < v.len()
        invariant
            0 <= i <= v@.len(),
            forall|j: int| 0 <= j < i ==> v.deep_view()[j] != s@,
        decreases v@.len() - i,
    {
        if str_eq(v[i].as_str(), s) {
            proof {
                assert(v.deep_view()[i as int] == s@);
            }
            return true;
        }
        i = i + 1;
    }
    false
}

impl StrMap<State> {
    /// Decides whether two analysis maps are equal as maps: the same keys,
    /// each bound to the same lattice element.
    pub fn state_map_eq(&self, other: &StrMap<State>) -> (r: bool)
        requires
            self.wf(),
            other.wf(),
        ensures
            r == (self@ == other@),
    {
        let n1 = self.len();
        let mut i: usize = 0;
        while i < n1
            invariant
                0 <= i <= n1,
                self.wf(),
                other.wf(),
                n1 == self.key_seq().len(),
                forall|j: int|
                    0 <= j < i ==> other@.contains_key(#[trigger] self.key_seq()[j])
                        && other@[self.key_seq()[j]] == self.val_seq()[j],
            decreases n1 - i,
        {
            let k = self.key_at(i);
            let mine = *self.val_at(i);
            match other.get(k.as_str()) {
                Some(v) => {
                    if !(*v == mine) {
                        proof {
                            self.lemma_at(i as int);
                            assert(self@[k@] != other@[k@]);
                        }
                        return false;
                    }
                },
                None => {
                    proof {
                        self.lemma_at(i as int);
                        assert(self@.contains_key(k@) && !other@.contains_key(k@));
                    }
                    return false;
                },
            }
            i = i + 1;
        }
        let n2 = other.len();
        let mut j: usize = 0;
        while j < n2
            invariant
                0 <= j <= n2,
                self.wf(),
                other.wf(),
                n2 == other.key_seq().len(),
                forall|t: int|
                    0 <= t < self.key_seq().len() ==> other@.contains_key(
                        #[trigger] self.key_seq()[t],
                    ) && other@[self.key_seq()[t]] == self.val_seq()[t],
                forall|t: int| 0 <= t < j ==> self@.contains_key(#[trigger] other.key_seq()[t]),
            decreases n2 - j,
        {
            let k2 = other.key_at(j);
            if !self.contains_key(k2.as_str()) {
                proof {
                    other.lemma_at(j as int);
                    assert(other@.contains_key(k2@) && !self@.contains_key(k2@));
                }
                return false;
            }
            j = j + 1;
        }
        proof {
            self.lemma_dom();
            other.lemma_dom();
            assert forall|k: Seq<char>| self@.dom().contains(k) implies other@.dom().contains(k)
                && other@[k] == self@[k] by {
                let t = choose|t: int|
                    0 <= t < self.key_seq().len() && self.key_seq()[t] == k;
                self.lemma_at(t);
            }
            assert forall|k: Seq<char>| other@.dom().contains(k) implies self@.dom().contains(
                k,
            ) by {
                let t = choose|t: int|
                    0 <= t < other.key_seq().len() && other.key_seq()[t] == k;
                other.lemma_at(t);
            }
            assert(self@ =~= other@);
        }
        true
    }
}

/// The lattice order on variable states: `Undef` lies below everything and
/// `NAC` above everything; distinct constants are incomparable.
pub open spec fn state_le(a: State, b: State) -> bool {
    a == b || a is Undef || b is NAC
}

/// The pointwise lattice order on analysis maps, an absent key counting as
/// `Undef`.
pub open spec fn map_le(m1: Map<Seq<char>, State>, m2: Map<Seq<char>, State>) -> bool {
    forall|k: Seq<char>| #![trigger state_at(m1, k)] state_le(state_at(m1, k), state_at(m2, k))
}

/// An instruction whose assignment actually folds its arguments: it has a
/// destination and a foldable operation typed `int` with exactly two
/// arguments.
pub open spec fn is_fold_site(i: InstrView) -> bool {
    &&& i.dest is Some
    &&& (match i.op {
        Some(op) => spec_foldable(op),
        None => false,
    })
    &&& i.typ == Some("int"@)
    &&& (match i.args {
        Some(a) => a.len() == 2,
        None => false,
    })
}

/// One instruction's effect is monotone, except at a folding site.
proof fn lemma_step_monotone(m1: Map<Seq<char>, State>, m2: Map<Seq<char>, State>, i: InstrView)
    requires
        map_le(m1, m2),
        !is_fold_site(i),
    ensures
        map_le(spec_transfer_step(m1, i), spec_transfer_step(m2, i)),
{
    match i.dest {
        None => {},
        Some(d) => {
            let s1 = spec_step_state(m1, i);
            let s2 = spec_step_state(m2, i);
            assert(state_le(s1, s2)) by {
                match i.op {
                    Some(op) => {
                        if op == "id"@ {
                            match i.args {
                                Some(a) => {
                                    if a.len() == 1 {
                                        assert(state_le(state_at(m1, a[0]), state_at(m2, a[0])));
                                    }
                                },
                                None => {},
                            }
                        }
                    },
                    None => {},
                }
            }
            assert forall|k: Seq<char>| #![trigger state_at(m1.insert(d, s1), k)]
                state_le(
                state_at(m1.insert(d, s1), k),
                state_at(m2.insert(d, s2), k),
            ) by {
                if k != d {
                    assert(state_le(state_at(m1, k), state_at(m2, k)));
                    assert(state_at(m1.insert(d, s1), k) == state_at(m1, k));
                    assert(state_at(m2.insert(d, s2), k) == state_at(m2, k));
                }
            }
        },
    }
}

/// The transfer function is monotone on blocks free of folding sites: for
/// pointwise-ordered input maps, the output maps are pointwise ordered the
/// same way. (At a folding site monotonicity can fail: `Undef` arguments
/// fold to `NAC`, the top element, while constant arguments fold to a
/// constant that does not lie above it.)
pub proof fn lemma_transfer_monotone(
    instrs: Seq<InstrView>,
    m1: Map<Seq<char>, State>,
    m2: Map<Seq<char>, State>,
)
    requires
        map_le(m1, m2),
        forall|j: int| 0 <= j < instrs.len() ==> !is_fold_site(#[trigger] instrs[j]),
    ensures
        map_le(spec_transfer(instrs, m1), spec_transfer(instrs, m2)),
    decreases instrs.len(),
{
    if instrs.len() > 0 {
        let front = instrs.drop_last();
        assert forall|j: int| 0 <= j < front.len() implies !is_fold_site(#[trigger] front[j]) by {
            assert(front[j] == instrs[j]);
        }
        lemma_transfer_monotone(front, m1, m2);
        lemma_step_monotone(spec_transfer(front, m1), spec_transfer(front, m2), instrs.last());
    }
}

/// The output maps of the predecessors of block `b`: for each entry of the
/// successor table in order, if it names `b` as a successor and an output
/// map is recorded for it, that output map. Predecessors are discovered by
/// scanning the successor table.
pub open spec fn preds_outs(
    edge_keys: Seq<Seq<char>>,
    edges: Map<Seq<char>, Seq<Seq<char>>>,
    outs: Map<Seq<char>, Map<Seq<char>, State>>,
    b: Seq<char>,
) -> Seq<Map<Seq<char>, State>>
    decreases edge_keys.len(),
{
    if edge_keys.len() == 0 {
        Seq::empty()
    } else {
        let rest = preds_outs(edge_keys.drop_last(), edges, outs, b);
        let p = edge_keys.last();
        if edges.dom().contains(p) && edges[p].contains(b) && outs.dom().contains(p) {
            rest.push(outs[p])
        } else {
            rest
        }
    }
}

/// Output tables that agree on every predecessor of `b` give `b` the same
/// merged input.
proof fn lemma_preds_outs_frame(
    edge_keys: Seq<Seq<char>>,
    edges: Map<Seq<char>, Seq<Seq<char>>>,
    outs1: Map<Seq<char>, Map<Seq<char>, State>>,
    outs2: Map<Seq<char>, Map<Seq<char>, State>>,
    b: Seq<char>,
)
    requires
        outs1.dom() == outs2.dom(),
        forall|p: Seq<char>|
            (edges.dom().contains(p) && (#[trigger] edges[p]).contains(b)
                && outs1.dom().contains(p)) ==> outs1[p] == outs2[p],
    ensures
        preds_outs(edge_keys, edges, outs1, b) == preds_outs(edge_keys, edges, outs2, b),
    decreases edge_keys.len(),
{
    if edge_keys.len() > 0 {
        lemma_preds_outs_frame(edge_keys.drop_last(), edges, outs1, outs2, b);
    }
}

/// The map the entry block starts from, built over the first `n` formal
/// parameters: each parameter name explicitly `Undef`.
pub open spec fn init_upto(args: Seq<ArgView>, n: int) -> Map<Seq<char>, State>
    decreases n,
{
    if n <= 0 {
        Map::empty()
    } else {
        init_upto(args, n - 1).insert(args[n - 1].name, State::Undef)
    }
}

/// The input map of the entry block: every formal parameter `Undef` (a
/// parameter is not a compile-time constant), and nothing else.
pub open spec fn spec_entry_init(args: Option<Seq<ArgView>>) -> Map<Seq<char>, State> {
    match args {
        Some(a) => init_upto(a, a.len() as int),
        None => Map::empty(),
    }
}

/// Whether no block of the graph declares any successor: every recorded
/// successor list is empty.
pub open spec fn no_successors(cfg: ControlFlowGraph) -> bool {
    forall|k: Seq<char>| cfg.edges@.dom().contains(k) ==> (#[trigger] cfg.edges@[k]).len() == 0
}

/// Input and output tables, keyed by block identifier, that solve the
/// dataflow equations of the graph: every block's output is the transfer of
/// its input; every non-entry block's input is the meet of its predecessors'
/// outputs; the entry block's input records the formal parameters.
pub open spec fn spec_fixpoint(
    cfg: ControlFlowGraph,
    args: Option<Seq<ArgView>>,
    ins: Map<Seq<char>, Map<Seq<char>, State>>,
    outs: Map<Seq<char>, Map<Seq<char>, State>>,
) -> bool {
    &&& ins.dom() == cfg.blocks@.dom()
    &&& outs.dom() == cfg.blocks@.dom()
    &&& forall|b: Seq<char>|
        cfg.blocks@.dom().contains(b) ==> #[trigger] outs[b] == spec_transfer(
            cfg.blocks@[b].instructions,
            ins[b],
        )
    &&& forall|b: Seq<char>|
        (cfg.blocks@.dom().contains(b) && cfg.entry_block.deep_view() != Some(b))
            ==> #[trigger] ins[b] == spec_merge(
            preds_outs(cfg.edges.key_seq(), cfg.edges@, outs, b),
        )
    &&& match cfg.entry_block.deep_view() {
        Some(e) => cfg.blocks@.dom().contains(e) ==> ins[e] == spec_entry_init(args),
        None => true,
    }
}

/// Implements the constant-propagation dataflow analysis.
pub struct DataFlow;

/// Reads a variable's state out of an analysis map.
fn lookup_state(m: &VarMap, k: &str) -> (r: State)
    requires
        m.wf(),
    ensures
        r == state_at(m@, k@),
{
    match m.get(k) {
        Some(s) => *s,
        None => State::Undef,
    }
}

impl DataFlow {
    /// A constant-propagation pass.
    pub fn new() -> (r: Self)
    {
        DataFlow
    }

    /// Decides whether an operation participates in constant folding.
    pub fn is_foldable_operation(&self, op: &str) -> (r: bool)
        ensures
            r == spec_foldable(op@),
    {
        str_eq(op, "add") || str_eq(op, "sub") || str_eq(op, "mul") || str_eq(op, "div") || str_eq(
            op,
            "mod",
        ) || str_eq(op, "eq") || str_eq(op, "lt") || str_eq(op, "gt") || str_eq(op, "le") || str_eq(
            op,
            "ge",
        ) || str_eq(op, "ne")
    }

    /// Folds a binary operation over argument states: two integer constants
    /// fold by the operator table, with 64-bit wrap-around and with division
    /// or remainder by zero yielding `NAC`; anything else yields `NAC`.
    pub fn fold_operation(&self, op: &str, args: &Vec<State>) -> (r: State)
        ensures
            r == spec_fold_args(op@, args@),
    {
        if args.len() != 2 {
            return State::NAC;
        }
        let a0 = args[0];
        let a1 = args[1];
        match (a0, a1) {
            (State::Const(a), State::Const(b)) => {
                if str_eq(op, "add") {
                    State::Const(a.wrapping_add(b))
                } else if str_eq(op, "sub") {
                    State::Const(a.wrapping_sub(b))
                } else if str_eq(op, "mul") {
                    State::Const(a.wrapping_mul(b))
                } else if str_eq(op, "div") {
                    if b == 0 {
                        State::NAC
                    } else {
                        match a.checked_div(b) {
                            Some(q) => State::Const(q),
                            None => State::Const(i64::MIN),
                        }
                    }
                } else if str_eq(op, "mod") {
                    if b == 0 {
                        State::NAC
                    } else {
                        match a.checked_rem(b) {
                            Some(q) => State::Const(q),
                            None => State::Const(0),
                        }
                    }
                } else if str_eq(op, "eq") {
                    State::Const(if a == b { 1 } else { 0 })
                } else if str_eq(op, "lt") {
                    State::Const(if a < b { 1 } else { 0 })
                } else if str_eq(op, "gt") {
                    State::Const(if a > b { 1 } else { 0 })
                } else if str_eq(op, "le") {
                    State::Const(if a <= b { 1 } else { 0 })
                } else if str_eq(op, "ge") {
                    State::Const(if a >= b { 1 } else { 0 })
                } else if str_eq(op, "ne") {
                    State::Const(if a != b { 1 } else { 0 })
                } else {
                    State::NAC
                }
            },
            _ => State::NAC,
        }
    }

    /// Combines the output maps of several predecessors by the lattice meet,
    /// pointwise over the union of their variables; a variable absent from a
    /// predecessor counts as `Undef`. No predecessors yield the empty map.
    pub fn merge(&self, pred_sets: &Vec<VarMap>) -> (r: VarMap)
        requires
            forall|i: int| 0 <= i < pred_sets@.len() ==> (#[trigger] pred_sets@[i]).wf(),
        ensures
            r.wf(),
            r@ == spec_merge(pred_sets.deep_view()),
    {
        let ghost pv = pred_sets.deep_view();
        proof {
            assert forall|i: int| 0 <= i < pv.len() implies pv[i] == pred_sets@[i]@ by {
                assert(pred_sets.deep_view()[i] == pred_sets@[i].deep_view());
            }
        }
        let np = pred_sets.len();
        if np == 0 {
            let r = VarMap::new();
            proof {
                assert(r@ =~= spec_merge(pv));
            }
            return r;
        }
        let mut seen = crate::smap::StrSet::new();
        let mut all_vars: Vec<String> = Vec::new();
        let mut t: usize = 0;
        proof {
            assert(seen@ =~= doms_upto(pv, 0));
            assert(all_vars.deep_view() =~= Seq::<Seq<char>>::empty());
        }
        while t < np
            invariant
                0 <= t <= np,
                np == pred_sets@.len(),
                pv == pred_sets.deep_view(),
                pv.len() == np,
                forall|i: int| 0 <= i < np ==> (#[trigger] pred_sets@[i]).wf(),
                forall|i: int| 0 <= i < pv.len() ==> pv[i] == #[trigger] pred_sets@[i]@,
                seen.wf(),
                seen@ == doms_upto(pv, t as int),
                all_vars.deep_view().no_duplicates(),
                all_vars.deep_view().to_set() == seen@,
            decreases np - t,
        {
            let p = &pred_sets[t];
            let m = p.len();
            let mut j: usize = 0;
            proof {
                p.lemma_dom();
                assert(p.key_seq().take(0).to_set() =~= Set::<Seq<char>>::empty());
                assert(seen@ =~= doms_upto(pv, t as int).union(p.key_seq().take(0).to_set()));
            }
            while j < m
                invariant
                    0 <= j <= m,
                    m == p.key_seq().len(),
                    p == pred_sets@[t as int],
                    p.wf(),
                    t < np,
                    np == pred_sets@.len(),
                    pv == pred_sets.deep_view(),
                    pv.len() == np,
                    forall|i: int| 0 <= i < pv.len() ==> pv[i] == #[trigger] pred_sets@[i]@,
                    seen.wf(),
                    seen@ == doms_upto(pv, t as int).union(p.key_seq().take(j as int).to_set()),
                    all_vars.deep_view().no_duplicates(),
                    all_vars.deep_view().to_set() == seen@,
                decreases m - j,
            {
                let key = p.key_at(j);
                let ghost seen0 = seen@;
                let ghost vars0 = all_vars.deep_view();
                if !seen.contains(key.as_str()) {
                    seen.insert(key.clone());
                    all_vars.push(key.clone());
                    proof {
                        assert(all_vars.deep_view() =~= vars0.push(key@));
                        crate::smap::lemma_push_to_set(vars0, key@);
                        assert(!vars0.contains(key@)) by {
                            if vars0.contains(key@) {
                                assert(vars0.to_set().contains(key@));
                            }
                        }
                        assert(all_vars.deep_view().no_duplicates()) by {
                            let av = all_vars.deep_view();
                            assert forall|x: int, y: int| 0 <= x < y < av.len() implies av[x]
                                != av[y] by {
                                if y < av.len() - 1 {
                                    assert(vars0[x] == av[x] && vars0[y] == av[y]);
                                } else {
                                    assert(av[y] == key@);
                                    assert(vars0[x] == av[x]);
                                    if av[x] == key@ {
                                        assert(vars0.contains(key@));
                                    }
                                }
                            }
                        }
                    }
                }
                proof {
                    let ks = p.key_seq();
                    assert(ks.take(j + 1) =~= ks.take(j as int).push(ks[j as int]));
                    crate::smap::lemma_push_to_set(ks.take(j as int), ks[j as int]);
                    assert(seen@ =~= doms_upto(pv, t as int).union(ks.take(j + 1).to_set()));
                }
                j = j + 1;
            }
            proof {
                p.lemma_dom();
                assert(p.key_seq().take(m as int) =~= p.key_seq());
                assert(p@.dom() == p.key_seq().to_set());
                assert(pv[t as int] == p@);
                assert(seen@ =~= doms_upto(pv, t + 1));
            }
            t = t + 1;
        }
        let mut result = VarMap::new();
        let nv = all_vars.len();
        let mut v: usize = 0;
        proof {
            assert(result@.dom() =~= all_vars.deep_view().take(0).to_set());
        }
        while v < nv
            invariant
                0 <= v <= nv,
                nv == all_vars@.len(),
                all_vars.deep_view().len() == nv,
                np == pred_sets@.len(),
                np > 0,
                pv == pred_sets.deep_view(),
                pv.len() == np,
                forall|i: int| 0 <= i < np ==> (#[trigger] pred_sets@[i]).wf(),
                forall|i: int| 0 <= i < pv.len() ==> pv[i] == #[trigger] pred_sets@[i]@,
                all_vars.deep_view().no_duplicates(),
                result.wf(),
                result@.dom() == all_vars.deep_view().take(v as int).to_set(),
                forall|k: Seq<char>|
                    result@.dom().contains(k) ==> #[trigger] result@[k] == meet_over(pv, k),
            decreases nv - v,
        {
            let ghost av = all_vars.deep_view();
            proof {
                assert(av[v as int] == all_vars@[v as int]@);
            }
            let mut st = State::Undef;
            let mut u: usize = 0;
            proof {
                assert(pv.take(0) =~= Seq::<Map<Seq<char>, State>>::empty());
            }
            while u < np
                invariant
                    0 <= u <= np,
                    np == pred_sets@.len(),
                    pv == pred_sets.deep_view(),
                    pv.len() == np,
                    forall|i: int| 0 <= i < np ==> (#[trigger] pred_sets@[i]).wf(),
                    forall|i: int| 0 <= i < pv.len() ==> pv[i] == #[trigger] pred_sets@[i]@,
                    v < nv,
                    nv == all_vars@.len(),
                    av == all_vars.deep_view(),
                    av[v as int] == all_vars@[v as int]@,
                    st == meet_over(pv.take(u as int), av[v as int]),
                decreases np - u,
            {
                let ps = lookup_state(&pred_sets[u], all_vars[v].as_str());
                st = st.meet(&ps);
                proof {
                    assert(pv.take(u + 1).drop_last() =~= pv.take(u as int));
                    assert(pv.take(u + 1).last() == pv[u as int]);
                }
                u = u + 1;
            }
            proof {
                assert(pv.take(np as int) =~= pv);
            }
            let ghost r0 = result@;
            result.set(all_vars[v].clone(), st);
            proof {
                assert(av.take(v + 1) =~= av.take(v as int).push(av[v as int]));
                crate::smap::lemma_push_to_set(av.take(v as int), av[v as int]);
                assert(result@.dom() =~= av.take(v + 1).to_set());
            }
            v = v + 1;
        }
        proof {
            let av = all_vars.deep_view();
            assert(av.take(nv as int) =~= av);
            assert(result@.dom() == av.to_set());
            let sm = spec_merge(pv);
            assert forall|k: Seq<char>| result@.dom().contains(k) <==> sm.dom().contains(k) by {
                lemma_doms_upto(pv, np as int, k);
            }
            assert forall|k: Seq<char>| sm.dom().contains(k) implies result@[k] == sm[k] by {}
            assert(result@ =~= sm);
        }
        result
    }

    /// Runs the fixed-point iteration with an explicit initial worklist
    /// order. A FIFO worklist is drained; each drained block's input is the
    /// meet of its predecessors' outputs (the entry block keeps its
    /// initialization), its output is recomputed by the transfer function,
    /// and its successors are enqueued again whenever the output changed.
    /// On convergence — whatever the seeding order — the returned tables
    /// solve the dataflow equations.
    ///
    /// `None` is returned only if the iteration budget (`u64::MAX` drained
    /// entries, beyond physical reach) runs out. A result is promised
    /// outright when no block declares a successor, since nothing is ever
    /// re-enqueued then. That the iteration always completes is not
    /// established here: the classical termination argument needs a
    /// monotone transfer function, and this transfer is not monotone at
    /// folding sites (see [`lemma_transfer_monotone`]).
    pub fn worklist_seeded(
        &self,
        cfg: &ControlFlowGraph,
        args: Option<&Vec<BrilArg>>,
        seed: &Vec<String>,
    ) -> (r: Option<(StrMap<VarMap>, StrMap<VarMap>)>)
        requires
            cfg.blocks.wf(),
            cfg.edges.wf(),
            forall|j: int|
                0 <= j < cfg.blocks.key_seq().len() ==> seed.deep_view().contains(
                    #[trigger] cfg.blocks.key_seq()[j],
                ),
        ensures
            match r {
                Some(io) => io.0.wf() && io.1.wf() && spec_fixpoint(
                    *cfg,
                    args.deep_view(),
                    io.0@,
                    io.1@,
                ),
                None => true,
            },
            no_successors(*cfg) ==> r is Some,
    {
        let ghost ks = cfg.blocks.key_seq();
        let ghost av = args.deep_view();
        let nb = cfg.blocks.len();
        let mut in_sets: StrMap<VarMap> = StrMap::new();
        let mut out_sets: StrMap<VarMap> = StrMap::new();
        let mut i: usize = 0;
        proof {
            cfg.blocks.lemma_dom();
            assert(in_sets@.dom() =~= ks.take(0).to_set());
            assert(out_sets@.dom() =~= ks.take(0).to_set());
        }
        while i < nb
            invariant
                0 <= i <= nb,
                nb == ks.len(),
                ks == cfg.blocks.key_seq(),
                cfg.blocks.wf(),
                av == args.deep_view(),
                in_sets.wf(),
                out_sets.wf(),
                in_sets@.dom() == ks.take(i as int).to_set(),
                out_sets@.dom() == ks.take(i as int).to_set(),
                forall|j: int|
                    0 <= j < in_sets.values().len() ==> (#[trigger] in_sets.values()[j]).wf(),
                forall|j: int|
                    0 <= j < out_sets.values().len() ==> (#[trigger] out_sets.values()[j]).wf(),
                forall|k: Seq<char>|
                    (in_sets@.dom().contains(k) && cfg.entry_block.deep_view() == Some(k))
                        ==> #[trigger] in_sets@[k] == spec_entry_init(av),
            decreases nb - i,
        {
            let bname = cfg.blocks.key_at(i).clone();
            proof {
                assert(bname@ == ks[i as int]);
                cfg.blocks.lemma_keys_distinct();
                assert(!ks.take(i as int).contains(ks[i as int])) by {
                    if ks.take(i as int).contains(ks[i as int]) {
                        let j = choose|j: int|
                            0 <= j < i && ks.take(i as int)[j] == ks[i as int];
                        assert(ks[j] == ks[i as int]);
                    }
                }
            }
            let is_entry = match &cfg.entry_block {
                Some(e) => str_eq(e.as_str(), bname.as_str()),
                None => false,
            };
            proof {
                assert(is_entry == (cfg.entry_block.deep_view() == Some(bname@)));
            }
            let mut initial: VarMap = VarMap::new();
            if is_entry {
                match args {
                    Some(fargs) => {
                        let na = fargs.len();
                        let mut t: usize = 0;
                        proof {
                            assert(initial@ =~= init_upto(fargs.deep_view(), 0));
                        }
                        while t < na
                            invariant
                                0 <= t <= na,
                                na == fargs@.len(),
                                initial.wf(),
                                initial@ == init_upto(fargs.deep_view(), t as int),
                            decreases na - t,
                        {
                            proof {
                                assert(fargs.deep_view()[t as int] == fargs@[t as int].deep_view());
                            }
                            initial.set(fargs[t].name.clone(), State::Undef);
                            t = t + 1;
                        }
                        proof {
                            assert(initial@ == spec_entry_init(av));
                        }
                    },
                    None => {
                        proof {
                            assert(initial@ =~= spec_entry_init(av));
                        }
                    },
                }
            }
            let ghost iv0 = initial@;
            let ghost ins_pre = in_sets@;
            let ghost outs_pre = out_sets@;
            in_sets.set(bname.clone(), initial);
            out_sets.set(bname, VarMap::new());
            proof {
                crate::smap::lemma_push_to_set(ks.take(i as int), ks[i as int]);
                assert(ks.take(i + 1) =~= ks.take(i as int).push(ks[i as int]));
                assert(in_sets@.dom() =~= ks.take(i + 1).to_set());
                assert(out_sets@.dom() =~= ks.take(i + 1).to_set());
                assert forall|k: Seq<char>|
                    (in_sets@.dom().contains(k) && cfg.entry_block.deep_view() == Some(k)) implies
                    #[trigger] in_sets@[k] == spec_entry_init(av) by {
                    if k == ks[i as int] {
                        assert(in_sets@[k] == iv0);
                    } else {
                        assert(in_sets@[k] == ins_pre[k]);
                    }
                }
            }
            i = i + 1;
        }
        proof {
            assert(ks.take(nb as int) =~= ks);
            assert(in_sets@.dom() == cfg.blocks@.dom());
            assert(out_sets@.dom() == cfg.blocks@.dom());
        }
        let mut queue = crate::bril::clone_strings(seed);
        let mut fuel: u64 = 18446744073709551615u64;
        let qlen = queue.len();
        proof {
            assert(qlen == queue@.len() && qlen <= usize::MAX && usize::MAX <= u64::MAX);
            assert forall|c: Seq<char>| cfg.blocks@.dom().contains(c) implies
                queue.deep_view().contains(c) by {
                assert(ks.to_set().contains(c));
                let j = choose|j: int| 0 <= j < ks.len() && ks[j] == c;
                assert(seed.deep_view().contains(ks[j]));
            }
            assert(queue@.len() <= fuel);
        }
        while queue.len() > 0
            invariant
                cfg.blocks.wf(),
                cfg.edges.wf(),
                av == args.deep_view(),
                in_sets.wf(),
                out_sets.wf(),
                in_sets@.dom() == cfg.blocks@.dom(),
                out_sets@.dom() == cfg.blocks@.dom(),
                forall|j: int|
                    0 <= j < in_sets.values().len() ==> (#[trigger] in_sets.values()[j]).wf(),
                forall|j: int|
                    0 <= j < out_sets.values().len() ==> (#[trigger] out_sets.values()[j]).wf(),
                match cfg.entry_block.deep_view() {
                    Some(e) => cfg.blocks@.dom().contains(e) ==> in_sets@[e] == spec_entry_init(
                        av,
                    ),
                    None => true,
                },
                forall|c: Seq<char>| #![trigger cfg.blocks@.dom().contains(c)]
                    cfg.blocks@.dom().contains(c) ==> queue.deep_view().contains(c) || (
                    out_sets@[c] == spec_transfer(cfg.blocks@[c].instructions, in_sets@[c]) && (
                    cfg.entry_block.deep_view() == Some(c) || in_sets@[c] == spec_merge(
                        preds_outs(cfg.edges.key_seq(), cfg.edges@, out_sets@, c),
                    ))),
                no_successors(*cfg) ==> queue@.len() <= fuel,
            decreases fuel,
        {
            if fuel == 0 {
                proof {
                    // With no successors nothing is ever re-enqueued, so the
                    // budget outlasts the queue and this exit is unreachable.
                    if no_successors(*cfg) {
                        assert(queue@.len() <= 0);
                        assert(false);
                    }
                }
                return None;
            }
            fuel = fuel - 1;
            let ghost q0 = queue.deep_view();
            let ghost ins0 = in_sets@;
            let ghost outs0 = out_sets@;
            let bname = queue.remove(0);
            let ghost b = bname@;
            proof {
                assert(q0[0] == b);
                assert(queue.deep_view() =~= q0.drop_first());
            }
            match cfg.blocks.get(bname.as_str()) {
                None => {
                    proof {
                        assert(!cfg.blocks@.dom().contains(b));
                        assert forall|c: Seq<char>| #![trigger cfg.blocks@.dom().contains(c)]
                            cfg.blocks@.dom().contains(c) && q0.contains(
                            c,
                        ) implies queue.deep_view().contains(c) by {
                            let idx = choose|idx: int| 0 <= idx < q0.len() && q0[idx] == c;
                            assert(c != b);
                            assert(idx != 0);
                            assert(queue.deep_view()[idx - 1] == c);
                        }
                    }
                },
                Some(block) => {
                    let ghost ekeys = cfg.edges.key_seq();
                    let is_entry = match &cfg.entry_block {
                        Some(e) => str_eq(e.as_str(), bname.as_str()),
                        None => false,
                    };
                    proof {
                        assert(is_entry == (cfg.entry_block.deep_view() == Some(b)));
                    }
                    let merged: VarMap = if is_entry {
                        match in_sets.get(bname.as_str()) {
                            Some(m) => m.duplicate(),
                            None => {
                                proof {
                                    assert(false);
                                }
                                VarMap::new()
                            },
                        }
                    } else {
                        let mut pred_outs_v: Vec<VarMap> = Vec::new();
                        let ne = cfg.edges.len();
                        let mut j: usize = 0;
                        proof {
                            assert(pred_outs_v.deep_view() =~= preds_outs(
                                ekeys.take(0),
                                cfg.edges@,
                                out_sets@,
                                b,
                            ));
                        }
                        while j < ne
                            invariant
                                0 <= j <= ne,
                                ne == cfg.edges.key_seq().len(),
                                ekeys == cfg.edges.key_seq(),
                                cfg.edges.wf(),
                                out_sets.wf(),
                                outs0 == out_sets@,
                                b == bname@,
                                forall|t: int|
                                    0 <= t < out_sets.values().len() ==> (#[trigger] out_sets.values()[t]).wf(),
                                pred_outs_v.deep_view() == preds_outs(
                                    ekeys.take(j as int),
                                    cfg.edges@,
                                    out_sets@,
                                    b,
                                ),
                                forall|t: int|
                                    0 <= t < pred_outs_v@.len() ==> (
                                    #[trigger] pred_outs_v@[t]).wf(),
                            decreases ne - j,
                        {
                            proof {
                                cfg.edges.lemma_dom();
                                cfg.edges.lemma_at(j as int);
                                assert(ekeys.take(j + 1).drop_last() =~= ekeys.take(j as int));
                                assert(ekeys.take(j + 1).last() == ekeys[j as int]);
                                assert(cfg.edges@.dom().contains(ekeys[j as int]));
                            }
                            let p = cfg.edges.key_at(j);
                            let succs = cfg.edges.val_at(j);
                            let ghost pv0 = pred_outs_v.deep_view();
                            if vec_contains_str(succs, bname.as_str()) {
                                proof {
                                    assert(cfg.edges@[ekeys[j as int]].contains(b));
                                }
                                match out_sets.get(p.as_str()) {
                                    Some(po) => {
                                        let d = po.duplicate();
                                        pred_outs_v.push(d);
                                        proof {
                                            assert(pred_outs_v.deep_view() =~= pv0.push(
                                                out_sets@[ekeys[j as int]],
                                            ));
                                        }
                                    },
                                    None => {
                                        proof {
                                            assert(!out_sets@.dom().contains(ekeys[j as int]));
                                            assert(pred_outs_v.deep_view() =~= preds_outs(
                                                ekeys.take(j + 1),
                                                cfg.edges@,
                                                out_sets@,
                                                b,
                                            ));
                                        }
                                    },
                                }
                            } else {
                                proof {
                                    assert(!cfg.edges@[ekeys[j as int]].contains(b));
                                    assert(pred_outs_v.deep_view() =~= preds_outs(
                                        ekeys.take(j + 1),
                                        cfg.edges@,
                                        out_sets@,
                                        b,
                                    ));
                                }
                            }
                            j = j + 1;
                        }
                        proof {
                            assert(ekeys.take(ne as int) =~= ekeys);
                        }
                        self.merge(&pred_outs_v)
                    };
                    let ghost mv = merged@;
                    proof {
                        if is_entry {
                            assert(mv == ins0[b]);
                        } else {
                            assert(mv == spec_merge(preds_outs(ekeys, cfg.edges@, outs0, b)));
                        }
                    }
                    let new_out = self.transfer(block, &merged);
                    let ghost nov = new_out@;
                    proof {
                        assert(block.deep_view() == cfg.blocks@[b]);
                        assert(nov == spec_transfer(cfg.blocks@[b].instructions, mv));
                    }
                    let changed = match out_sets.get(bname.as_str()) {
                        Some(old_out) => !new_out.state_map_eq(old_out),
                        None => {
                            proof {
                                assert(false);
                            }
                            true
                        },
                    };
                    proof {
                        if !changed {
                            assert(nov == outs0[b]);
                        }
                    }
                    let ghost q1 = queue.deep_view();
                    let ghost mut pushed: Seq<Seq<char>> = Seq::empty();
                    if changed {
                        match cfg.edges.get(bname.as_str()) {
                            Some(succs2) => {
                                proof {
                                    pushed = succs2.deep_view();
                                }
                                let ns = succs2.len();
                                let mut s: usize = 0;
                                proof {
                                    assert(queue.deep_view() =~= q1 + succs2.deep_view().take(0));
                                }
                                while s < ns
                                    invariant
                                        0 <= s <= ns,
                                        ns == succs2@.len(),
                                        succs2.deep_view().len() == ns,
                                        queue.deep_view() == q1 + succs2.deep_view().take(s as int),
                                    decreases ns - s,
                                {
                                    let item = succs2[s].clone();
                                    let ghost qd0 = queue.deep_view();
                                    let ghost qs0 = queue@;
                                    queue.push(item);
                                    proof {
                                        assert(item@ == succs2.deep_view()[s as int]);
                                        assert forall|idx: int|
                                            0 <= idx < qd0.len() + 1 implies queue.deep_view()[idx]
                                            == (q1 + succs2.deep_view().take(s + 1))[idx] by {
                                            if idx < qd0.len() {
                                                assert(queue@[idx] == qs0[idx]);
                                                assert(queue.deep_view()[idx] == qd0[idx]);
                                            } else {
                                                assert(queue@[idx] == item);
                                            }
                                        }
                                        assert(queue.deep_view() =~= q1 + succs2.deep_view().take(
                                            s + 1,
                                        ));
                                    }
                                    s = s + 1;
                                }
                                proof {
                                    assert(succs2.deep_view().take(ns as int) =~= succs2.deep_view());
                                    assert(queue.deep_view() == q1 + pushed);
                                }
                            },
                            None => {
                                proof {
                                    assert(queue.deep_view() =~= q1 + pushed);
                                }
                            },
                        }
                    } else {
                        proof {
                            assert(queue.deep_view() =~= q1 + pushed);
                        }
                    }
                    let ghost qf = queue.deep_view();
                    proof {
                        assert(qf == q1 + pushed);
                        if changed && cfg.edges@.dom().contains(b) {
                            assert(pushed == cfg.edges@[b]);
                        } else {
                            assert(pushed =~= Seq::<Seq<char>>::empty());
                        }
                        if no_successors(*cfg) {
                            assert(pushed.len() == 0);
                            assert(qf.len() == q1.len());
                            assert(queue@.len() == q0.len() - 1);
                        }
                    }
                    in_sets.set(bname.clone(), merged);
                    out_sets.set(bname, new_out);
                    proof {
                        let ins1 = in_sets@;
                        let outs1 = out_sets@;
                        let dom = cfg.blocks@.dom();
                        let entry = cfg.entry_block.deep_view();
                        assert(ins1 == ins0.insert(b, mv));
                        assert(outs1 == outs0.insert(b, nov));
                        assert(dom.contains(b));
                        assert(ins1.dom() =~= dom);
                        assert(outs1.dom() =~= dom);
                        if !changed {
                            assert(outs1 =~= outs0);
                        }
                        match entry {
                            Some(e) => {
                                if dom.contains(e) {
                                    if e == b {
                                        assert(is_entry);
                                        assert(ins1[e] == ins0[e]);
                                    } else {
                                        assert(ins1[e] == ins0[e]);
                                    }
                                    assert(ins1[e] == spec_entry_init(av));
                                }
                            },
                            None => {},
                        }
                        assert forall|c: Seq<char>| #![trigger dom.contains(c)] dom.contains(c)
                            implies qf.contains(c) || (outs1[c] == spec_transfer(
                            cfg.blocks@[c].instructions,
                            ins1[c],
                        ) && (entry == Some(c) || ins1[c] == spec_merge(
                            preds_outs(ekeys, cfg.edges@, outs1, c),
                        ))) by {
                            if c == b {
                                assert(outs1[b] == nov);
                                assert(ins1[b] == mv);
                                assert(outs1[b] == spec_transfer(
                                    cfg.blocks@[b].instructions,
                                    ins1[b],
                                ));
                                if entry != Some(b) {
                                    if changed {
                                        if cfg.edges@.dom().contains(b) && cfg.edges@[b].contains(
                                            b,
                                        ) {
                                            let t = choose|t: int|
                                                0 <= t < pushed.len() && pushed[t] == b;
                                            assert(qf[q1.len() + t] == b);
                                            assert(qf.contains(b));
                                        } else {
                                            assert forall|p: Seq<char>|
                                                (cfg.edges@.dom().contains(p) && (
                                                #[trigger] cfg.edges@[p]).contains(b)
                                                    && outs0.dom().contains(p)) implies outs0[p]
                                                == outs1[p] by {
                                                assert(p != b);
                                            }
                                            lemma_preds_outs_frame(
                                                ekeys,
                                                cfg.edges@,
                                                outs0,
                                                outs1,
                                                b,
                                            );
                                        }
                                    } else {
                                        lemma_preds_outs_frame(ekeys, cfg.edges@, outs0, outs1, b);
                                    }
                                }
                            } else {
                                if q0.contains(c) {
                                    let idx = choose|idx: int|
                                        0 <= idx < q0.len() && q0[idx] == c;
                                    assert(idx != 0);
                                    assert(q1[idx - 1] == c);
                                    assert(qf[idx - 1] == c);
                                    assert(qf.contains(c));
                                } else {
                                    assert(outs1[c] == outs0[c]);
                                    assert(ins1[c] == ins0[c]);
                                    assert(outs0[c] == spec_transfer(
                                        cfg.blocks@[c].instructions,
                                        ins0[c],
                                    ));
                                    if entry != Some(c) {
                                        if changed && cfg.edges@.dom().contains(b)
                                            && cfg.edges@[b].contains(c) {
                                            let t = choose|t: int|
                                                0 <= t < pushed.len() && pushed[t] == c;
                                            assert(qf[q1.len() + t] == c);
                                            assert(qf.contains(c));
                                        } else {
                                            assert forall|p: Seq<char>|
                                                (cfg.edges@.dom().contains(p) && (
                                                #[trigger] cfg.edges@[p]).contains(c)
                                                    && outs0.dom().contains(p)) implies outs0[p]
                                                == outs1[p] by {
                                                if p == b {
                                                    assert(changed ==> false);
                                                    assert(outs1 =~= outs0);
                                                }
                                            }
                                            lemma_preds_outs_frame(
                                                ekeys,
                                                cfg.edges@,
                                                outs0,
                                                outs1,
                                                c,
                                            );
                                            assert(ins1[c] == spec_merge(
                                                preds_outs(ekeys, cfg.edges@, outs1, c),
                                            ));
                                        }
                                    }
                                }
                            }
                        }
                    }
                },
            }
        }
        proof {
            assert forall|c: Seq<char>| #![trigger cfg.blocks@.dom().contains(c)]
                cfg.blocks@.dom().contains(c) implies out_sets@[c] == spec_transfer(
                cfg.blocks@[c].instructions,
                in_sets@[c],
            ) && (cfg.entry_block.deep_view() == Some(c) || in_sets@[c] == spec_merge(
                preds_outs(cfg.edges.key_seq(), cfg.edges@, out_sets@, c),
            )) by {
                assert(!queue.deep_view().contains(c));
            }
            assert(spec_fixpoint(*cfg, av, in_sets@, out_sets@));
        }
        Some((in_sets, out_sets))
    }

    /// Runs the constant-propagation fixed point over the function's graph,
    /// seeding the worklist with every block in program order; parameters
    /// (not compile-time constants) start as `Undef` in the entry block. The
    /// returned pair maps each block to its input and output variable
    /// states.
    ///
    /// `None` is returned only if the iteration budget (`u64::MAX` drained
    /// entries, beyond physical reach) runs out; a result is promised
    /// outright when no block declares a successor. See [`worklist_seeded`]
    /// on why completion is not promised in general.
    pub fn worklist(&self, cfg: &ControlFlowGraph, args: Option<&Vec<BrilArg>>) -> (r: Option<
        (StrMap<VarMap>, StrMap<VarMap>),
    >)
        requires
            cfg.blocks.wf(),
            cfg.edges.wf(),
        ensures
            match r {
                Some(io) => io.0.wf() && io.1.wf() && spec_fixpoint(
                    *cfg,
                    args.deep_view(),
                    io.0@,
                    io.1@,
                ),
                None => true,
            },
            no_successors(*cfg) ==> r is Some,
    {
        let ghost ks = cfg.blocks.key_seq();
        let nb = cfg.blocks.len();
        let mut seed: Vec<String> = Vec::new();
        let mut i: usize = 0;
        while i < nb
            invariant
                0 <= i <= nb,
                nb == ks.len(),
                ks == cfg.blocks.key_seq(),
                cfg.blocks.wf(),
                seed.deep_view() =~= ks.take(i as int),
            decreases nb - i,
        {
            let item = cfg.blocks.key_at(i).clone();
            let ghost sd0 = seed.deep_view();
            let ghost ss0 = seed@;
            seed.push(item);
            proof {
                assert(item@ == ks[i as int]);
                assert forall|idx: int|
                    0 <= idx < sd0.len() + 1 implies seed.deep_view()[idx] == ks.take(i + 1)[idx] by {
                    if idx < sd0.len() {
                        assert(seed@[idx] == ss0[idx]);
                        assert(seed.deep_view()[idx] == sd0[idx]);
                    } else {
                        assert(seed@[idx] == item);
                    }
                }
                assert(seed.deep_view() =~= ks.take(i + 1));
            }
            i = i + 1;
        }
        proof {
            assert(seed.deep_view() =~= ks);
            assert forall|j: int| 0 <= j < ks.len() implies seed.deep_view().contains(
                #[trigger] ks[j],
            ) by {
                assert(seed.deep_view()[j] == ks[j]);
            }
        }
        self.worklist_seeded(cfg, args, &seed)
    }

    /// Computes a block's output map from its input map: the input threaded
    /// through every instruction in order, each destination overwritten with
    /// the state its instruction assigns. The block is not modified.
    pub fn transfer(&self, block: &BasicBlock, in_vars: &VarMap) -> (r: VarMap)
        requires
            in_vars.wf(),
        ensures
            r.wf(),
            r@ == spec_transfer(block@.instructions, in_vars@),
    {
        let ghost iv = block@.instructions;
        let mut out_vars = in_vars.duplicate();
        let n = block.instructions.len();
        let mut idx: usize = 0;
        proof {
            assert(iv.take(0) =~= Seq::<InstrView>::empty());
        }
        while idx < n
            invariant
                0 <= idx <= n,
                n == block.instructions@.len(),
                iv == block@.instructions,
                iv.len() == n,
                out_vars.wf(),
                in_vars.wf(),
                out_vars@ == spec_transfer(iv.take(idx as int), in_vars@),
            decreases n - idx,
        {
            let instr = &block.instructions[idx];
            let ghost m0 = out_vars@;
            proof {
                assert(iv[idx as int] == block.instructions@[idx as int]@);
                assert(iv.take(idx + 1).drop_last() =~= iv.take(idx as int));
                assert(iv.take(idx + 1).last() == iv[idx as int]);
            }
            match instr.get_dest() {
                None => {},
                Some(dest) => {
                    let dest_name = dest.to_owned();
                    let new_state: State = match instr.get_op() {
                        Some(op) => {
                            if str_eq(op, "const") {
                                match instr.get_value() {
                                    Some(v) => match v {
                                        BrilValue::Int(x) => State::Const(*x),
                                        BrilValue::Text(s) => match parse_int(s.as_str()) {
                                            Some(x) => State::Const(x),
                                            None => State::NAC,
                                        },
                                        BrilValue::Bool(_) => State::NAC,
                                    },
                                    None => State::NAC,
                                }
                            } else if str_eq(op, "id") {
                                match instr.get_args() {
                                    Some(args) => {
                                        if args.len() == 1 {
                                            proof {
                                                assert(args.deep_view()[0] == args@[0]@);
                                            }
                                            lookup_state(&out_vars, args[0].as_str())
                                        } else {
                                            State::NAC
                                        }
                                    },
                                    None => State::NAC,
                                }
                            } else if self.is_foldable_operation(op) {
                                if opt_str_is(&instr.typ, "int") {
                                    match instr.get_args() {
                                        Some(args) => {
                                            let m = args.len();
                                            let mut arg_states: Vec<State> = Vec::new();
                                            let mut k: usize = 0;
                                            while k < m
                                                invariant
                                                    0 <= k <= m,
                                                    m == args@.len(),
                                                    args.deep_view().len() == m,
                                                    out_vars.wf(),
                                                    arg_states@.len() == k,
                                                    forall|t: int|
                                                        0 <= t < k ==> arg_states@[t] == state_at(
                                                            out_vars@,
                                                            #[trigger] args.deep_view()[t],
                                                        ),
                                                decreases m - k,
                                            {
                                                proof {
                                                    assert(args.deep_view()[k as int] == args@[
                                                        k as int]@);
                                                }
                                                let st = lookup_state(&out_vars, args[k].as_str());
                                                arg_states.push(st);
                                                k = k + 1;
                                            }
                                            let mut all_const = true;
                                            let mut t: usize = 0;
                                            while t < arg_states.len()
                                                invariant
                                                    0 <= t <= arg_states@.len(),
                                                    all_const == (forall|u: int|
                                                        0 <= u < t ==> (#[trigger] arg_states@[u])
                                                            is Const),
                                                decreases arg_states@.len() - t,
                                            {
                                                if !matches!(arg_states[t], State::Const(_)) {
                                                    all_const = false;
                                                }
                                                t = t + 1;
                                            }
                                            if all_const {
                                                self.fold_operation(op, &arg_states)
                                            } else {
                                                State::NAC
                                            }
                                        },
                                        None => State::NAC,
                                    }
                                } else {
                                    State::NAC
                                }
                            } else {
                                State::NAC
                            }
                        },
                        None => State::NAC,
                    };
                    proof {
                        assert(new_state == spec_step_state(m0, iv[idx as int]));
                    }
                    out_vars.set(dest_name, new_state);
                },
            }
            proof {
                assert(out_vars@ == spec_transfer_step(m0, iv[idx as int]));
                assert(out_vars@ == spec_transfer(iv.take(idx + 1), in_vars@));
            }
            idx = idx + 1;
        }
        proof {
            assert(iv.take(n as int) =~= iv);
        }
        out_vars
    }
}

} // verus!
