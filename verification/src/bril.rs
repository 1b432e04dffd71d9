//! The IR data model: instructions as records of optional typed fields,
//! functions, and programs. An instruction's view abstracts every field to
//! mathematical sequences, so that the analyses' contracts can speak of it.

use vstd::prelude::*;

verus! {

/// A primitive literal carried by a `const` instruction: an integer, a
/// boolean, or a text that may itself spell a signed 64-bit decimal.
#[derive(Debug, PartialEq, Eq, Hash)]
pub enum BrilValue {
    Int(i64),
    Bool(bool),
    Text(String),
}

/// The mathematical image of a [`BrilValue`].
pub ghost enum BrilValueView {
    Int(i64),
    Bool(bool),
    Text(Seq<char>),
}

impl DeepView for BrilValue {
    type V = BrilValueView;

    open spec fn deep_view(&self) -> BrilValueView {
        match self {
            BrilValue::Int(v) => BrilValueView::Int(*v),
            BrilValue::Bool(b) => BrilValueView::Bool(*b),
            BrilValue::Text(s) => BrilValueView::Text(s.view()),
        }
    }
}

impl Clone for BrilValue {
    fn clone(&self) -> (r: Self)
        ensures
            r.deep_view() == self.deep_view(),
    {
        match self {
            BrilValue::Int(v) => BrilValue::Int(*v),
            BrilValue::Bool(b) => BrilValue::Bool(*b),
            BrilValue::Text(s) => BrilValue::Text(s.clone()),
        }
    }
}

/// One IR instruction: an opaque record of optional typed fields. Absence of
/// any field is a normal case, never an error. Instructions are value
/// objects: equality and hashing are total, deterministic and structural.
#[derive(Debug, PartialEq, Eq, Hash)]
pub struct BrilInstruction {
    /// Short name of the operation (`const`, `add`, `jmp`, ...).
    pub op: Option<String>,
    /// Present on label pseudo-instructions, which start a block.
    pub label: Option<String>,
    /// Destination variable of a value-producing operation.
    pub dest: Option<String>,
    /// Type tag (`"int"` gates integer constant folding).
    pub typ: Option<String>,
    /// Variable names consumed by the operation, in order.
    pub args: Option<Vec<String>>,
    /// Block-label targets of a control operation, in order.
    pub labels: Option<Vec<String>>,
    /// Function-name references, in order.
    pub funcs: Option<Vec<String>>,
    /// Literal payload of a `const`.
    pub value: Option<BrilValue>,
}

/// The mathematical image of a [`BrilInstruction`].
pub ghost struct InstrView {
    pub op: Option<Seq<char>>,
    pub label: Option<Seq<char>>,
    pub dest: Option<Seq<char>>,
    pub typ: Option<Seq<char>>,
    pub args: Option<Seq<Seq<char>>>,
    pub labels: Option<Seq<Seq<char>>>,
    pub funcs: Option<Seq<Seq<char>>>,
    pub value: Option<BrilValueView>,
}

impl View for BrilInstruction {
    type V = InstrView;

    open spec fn view(&self) -> InstrView {
        InstrView {
            op: self.op.deep_view(),
            label: self.label.deep_view(),
            dest: self.dest.deep_view(),
            typ: self.typ.deep_view(),
            args: self.args.deep_view(),
            labels: self.labels.deep_view(),
            funcs: self.funcs.deep_view(),
            value: self.value.deep_view(),
        }
    }
}

impl DeepView for BrilInstruction {
    type V = InstrView;

    open spec fn deep_view(&self) -> InstrView {
        self.view()
    }
}

/// Copies an optional string.
fn clone_opt_string(o: &Option<String>) -> (r: Option<String>)
    ensures
        r.deep_view() == o.deep_view(),
{
    match o {
        Some(s) => Some(s.clone()),
        None => None,
    }
}

/// Copies a vector of strings.
pub fn clone_strings(v: &Vec<String>) -> (r: Vec<String>)
    ensures
        r@ == v@,
        r.deep_view() == v.deep_view(),
{
    let mut out: Vec<String> = Vec::new();
    let mut i: usize = 0;
    while i < v.len()
        invariant
            0 <= i <= v@.len(),
            out@ =~= v@.take(i as int),
        decreases v@.len() - i,
    {
        out.push(v[i].clone());
        proof {
            assert(out@ =~= v@.take(i + 1));
        }
        i = i + 1;
    }
    proof {
        assert(out@ =~= v@);
        assert(out.deep_view() =~= v.deep_view());
    }
    out
}

/// Copies an optional vector of strings.
fn clone_opt_strings(o: &Option<Vec<String>>) -> (r: Option<Vec<String>>)
    ensures
        r.deep_view() == o.deep_view(),
{
    match o {
        Some(v) => Some(clone_strings(v)),
        None => None,
    }
}

impl Clone for BrilInstruction {
    fn clone(&self) -> (r: Self)
        ensures
            r@ == self@,
    {
        let value = match &self.value {
            Some(v) => Some(v.clone()),
            None => None,
        };
        BrilInstruction {
            op: clone_opt_string(&self.op),
            label: clone_opt_string(&self.label),
            dest: clone_opt_string(&self.dest),
            typ: clone_opt_string(&self.typ),
            args: clone_opt_strings(&self.args),
            labels: clone_opt_strings(&self.labels),
            funcs: clone_opt_strings(&self.funcs),
            value,
        }
    }
}

impl BrilInstruction {
    /// An instruction with every field absent.
    pub fn new() -> (r: Self)
        ensures
            r@.op is None,
            r@.label is None,
            r@.dest is None,
            r@.typ is None,
            r@.args is None,
            r@.labels is None,
            r@.funcs is None,
            r@.value is None,
    {
        BrilInstruction {
            op: None,
            label: None,
            dest: None,
            typ: None,
            args: None,
            labels: None,
            funcs: None,
            value: None,
        }
    }

    /// Whether the instruction is a label pseudo-instruction.
    pub fn has_label(&self) -> (r: bool)
        ensures
            r == (self@.label is Some),
    {
        self.label.is_some()
    }

    /// The operation name, if present.
    pub fn get_op(&self) -> (r: Option<&str>)
        ensures
            match r {
                Some(s) => self@.op == Some(s@),
                None => self@.op is None,
            },
    {
        match &self.op {
            Some(s) => Some(s.as_str()),
            None => None,
        }
    }

    /// The label, if present.
    pub fn get_label(&self) -> (r: Option<&str>)
        ensures
            match r {
                Some(s) => self@.label == Some(s@),
                None => self@.label is None,
            },
    {
        match &self.label {
            Some(s) => Some(s.as_str()),
            None => None,
        }
    }

    /// The destination variable, if present.
    pub fn get_dest(&self) -> (r: Option<&str>)
        ensures
            match r {
                Some(s) => self@.dest == Some(s@),
                None => self@.dest is None,
            },
    {
        match &self.dest {
            Some(s) => Some(s.as_str()),
            None => None,
        }
    }

    /// The type tag, if present.
    pub fn get_type(&self) -> (r: Option<&str>)
        ensures
            match r {
                Some(s) => self@.typ == Some(s@),
                None => self@.typ is None,
            },
    {
        match &self.typ {
            Some(s) => Some(s.as_str()),
            None => None,
        }
    }

    /// The consumed variable names, copied, if present.
    pub fn get_args(&self) -> (r: Option<Vec<String>>)
        ensures
            r.deep_view() == self@.args,
    {
        clone_opt_strings(&self.args)
    }

    /// The control-target labels, copied, if present.
    pub fn get_labels(&self) -> (r: Option<Vec<String>>)
        ensures
            r.deep_view() == self@.labels,
    {
        clone_opt_strings(&self.labels)
    }

    /// The function references, copied, if present.
    pub fn get_funcs(&self) -> (r: Option<Vec<String>>)
        ensures
            r.deep_view() == self@.funcs,
    {
        clone_opt_strings(&self.funcs)
    }

    /// The literal payload, if present.
    pub fn get_value(&self) -> (r: Option<&BrilValue>)
        ensures
            match r {
                Some(v) => self@.value == Some(v.deep_view()),
                None => self@.value is None,
            },
    {
        match &self.value {
            Some(v) => Some(v),
            None => None,
        }
    }
}

/// Whether an instruction view is an explicit control transfer.
pub open spec fn is_terminator_op(i: InstrView) -> bool {
    i.op == Some("jmp"@) || i.op == Some("br"@) || i.op == Some("ret"@)
}

/// Decides whether an instruction ends a basic block.
pub fn is_terminator(i: &BrilInstruction) -> (r: bool)
    ensures
        r == is_terminator_op(i@),
{
    crate::text::opt_str_is(&i.op, "jmp") || crate::text::opt_str_is(&i.op, "br")
        || crate::text::opt_str_is(&i.op, "ret")
}

/// One formal parameter of a function: a name and a type tag.
#[derive(Debug)]
pub struct BrilArg {
    pub name: String,
    pub typ: String,
}

/// The mathematical image of a [`BrilArg`].
pub ghost struct ArgView {
    pub name: Seq<char>,
    pub typ: Seq<char>,
}

impl DeepView for BrilArg {
    type V = ArgView;

    open spec fn deep_view(&self) -> ArgView {
        ArgView { name: self.name@, typ: self.typ@ }
    }
}

impl Clone for BrilArg {
    fn clone(&self) -> (r: Self)
        ensures
            r.deep_view() == self.deep_view(),
    {
        BrilArg { name: self.name.clone(), typ: self.typ.clone() }
    }
}

/// One IR function: a name, optional formal parameters, and the original
/// instruction list.
#[derive(Debug)]
pub struct BrilFunction {
    pub name: String,
    pub args: Option<Vec<BrilArg>>,
    pub instructions: Vec<BrilInstruction>,
}

/// The mathematical image of a [`BrilFunction`].
pub ghost struct FuncView {
    pub name: Seq<char>,
    pub args: Option<Seq<ArgView>>,
    pub instructions: Seq<InstrView>,
}

impl DeepView for BrilFunction {
    type V = FuncView;

    open spec fn deep_view(&self) -> FuncView {
        FuncView {
            name: self.name@,
            args: self.args.deep_view(),
            instructions: self.instructions.deep_view(),
        }
    }
}

impl BrilFunction {
    /// The formal parameters, if the document declared any.
    pub fn get_args(&self) -> (r: Option<&Vec<BrilArg>>)
        ensures
            match r {
                Some(v) => self.deep_view().args == Some(v.deep_view()),
                None => self.deep_view().args is None,
            },
    {
        match &self.args {
            Some(v) => Some(v),
            None => None,
        }
    }
}

/// A parsed IR program: an ordered sequence of functions.
#[derive(Debug)]
pub struct BrilProgram {
    pub functions: Vec<BrilFunction>,
}

impl DeepView for BrilProgram {
    type V = Seq<FuncView>;

    open spec fn deep_view(&self) -> Seq<FuncView> {
        self.functions.deep_view()
    }
}

} // verus!
