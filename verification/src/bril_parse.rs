//! Reads an IR program out of an already-parsed JSON document: a
//! `functions` array of objects, each with an optional `name`, optional
//! `args`, and an `instrs` array of instruction objects whose fields are
//! surfaced as the plain typed fields of [`BrilInstruction`].
//!
//! The JSON tree itself is opaque; what each accessor of `serde_json` reads
//! out of a value is given a name (`json_text`, `json_items`, ...), and the
//! conversion into the library's own types is verified against those names.

use vstd::prelude::*;
use crate::bril::{ArgView, BrilArg, BrilFunction, BrilInstruction, BrilProgram, BrilValue,
    BrilValueView, FuncView, InstrView};

verus! {

#[verifier::external_type_specification]
#[verifier::external_body]
pub struct ExValue(serde_json::Value);

#[verifier::external_type_specification]
#[verifier::external_body]
pub struct ExJsonError(serde_json::Error);

/// The text a JSON value holds, when it is a string.
pub uninterp spec fn json_text(v: serde_json::Value) -> Option<Seq<char>>;

/// The signed 64-bit integer a JSON value holds, when it is one.
pub uninterp spec fn json_int(v: serde_json::Value) -> Option<i64>;

/// The boolean a JSON value holds, when it is one.
pub uninterp spec fn json_flag(v: serde_json::Value) -> Option<bool>;

/// The elements a JSON value holds, when it is an array.
pub uninterp spec fn json_items(v: serde_json::Value) -> Option<Seq<serde_json::Value>>;

/// The value a JSON object holds under a key, when it is an object with
/// that key.
pub uninterp spec fn json_field(v: serde_json::Value, key: Seq<char>) -> Option<serde_json::Value>;

/// The one-line description of a JSON error.
pub uninterp spec fn json_error_text(e: serde_json::Error) -> Seq<char>;

/// The document a text parses to, when the text is well-formed JSON; the
/// result depends on the text alone.
pub uninterp spec fn json_doc(s: Seq<char>) -> Option<serde_json::Value>;

/// Relies on serde_json::Value::as_str: the borrowed text when the value is
/// a JSON string, `None` otherwise.
#[verifier::external_body]
fn value_as_str(v: &serde_json::Value) -> (r: Option<&str>)
    ensures
        match r {
            Some(s) => json_text(*v) == Some(s@),
            None => json_text(*v) is None,
        },
{
    v.as_str()
}

/// Relies on serde_json::Value::as_i64: the integer when the value is a
/// JSON number representable as an `i64`, `None` otherwise.
#[verifier::external_body]
fn value_as_i64(v: &serde_json::Value) -> (r: Option<i64>)
    ensures
        r == json_int(*v),
{
    v.as_i64()
}

/// Relies on serde_json::Value::as_bool: the boolean when the value is a
/// JSON boolean, `None` otherwise.
#[verifier::external_body]
fn value_as_bool(v: &serde_json::Value) -> (r: Option<bool>)
    ensures
        r == json_flag(*v),
{
    v.as_bool()
}

/// Relies on serde_json::Value::as_array: the elements when the value is a
/// JSON array, `None` otherwise.
#[verifier::external_body]
fn value_as_array(v: &serde_json::Value) -> (r: Option<&Vec<serde_json::Value>>)
    ensures
        match r {
            Some(a) => json_items(*v) == Some(a@),
            None => json_items(*v) is None,
        },
{
    v.as_array()
}

/// Relies on serde_json::Value::get with a string index: the value under the
/// key when `v` is a JSON object with that key, `None` otherwise.
#[verifier::external_body]
fn value_get<'a>(v: &'a serde_json::Value, key: &str) -> (r: Option<&'a serde_json::Value>)
    ensures
        match r {
            Some(f) => json_field(*v, key@) == Some(*f),
            None => json_field(*v, key@) is None,
        },
{
    v.get(key)
}

/// Relies on serde_json::from_str: parses the document a text holds —
/// succeeding exactly on well-formed JSON — or reports a syntax error.
#[verifier::external_body]
fn json_from_str(s: &str) -> (r: Result<serde_json::Value, serde_json::Error>)
    ensures
        match r {
            Ok(v) => json_doc(s@) == Some(v),
            Err(_) => json_doc(s@) is None,
        },
{
    serde_json::from_str(s)
}

/// Relies on the Display of serde_json::Error: its one-line description,
/// which depends on the error value alone.
#[verifier::external_body]
fn json_error_message(e: &serde_json::Error) -> (r: String)
    ensures
        r@ == json_error_text(*e),
{
    format!("{}", e)
}

/// The text under a key of a JSON object, when the key is there and holds a
/// string.
pub open spec fn field_text(v: serde_json::Value, key: Seq<char>) -> Option<Seq<char>> {
    match json_field(v, key) {
        Some(f) => json_text(f),
        None => None,
    }
}

/// The strings among the elements of a JSON array, in order; elements that
/// are not strings are skipped.
pub open spec fn texts_of(items: Seq<serde_json::Value>) -> Seq<Seq<char>>
    decreases items.len(),
{
    if items.len() == 0 {
        Seq::empty()
    } else {
        let rest = texts_of(items.drop_last());
        match json_text(items.last()) {
            Some(t) => rest.push(t),
            None => rest,
        }
    }
}

/// The strings of the array under a key of a JSON object, when the key is
/// there and holds an array.
pub open spec fn field_texts(v: serde_json::Value, key: Seq<char>) -> Option<Seq<Seq<char>>> {
    match json_field(v, key) {
        Some(f) => match json_items(f) {
            Some(a) => Some(texts_of(a)),
            None => None,
        },
        None => None,
    }
}

/// The literal under the `value` key of an instruction object: an integer,
/// else a boolean, else a text; anything else is dropped.
pub open spec fn field_literal(v: serde_json::Value) -> Option<BrilValueView> {
    match json_field(v, "value"@) {
        Some(f) => match json_int(f) {
            Some(x) => Some(BrilValueView::Int(x)),
            None => match json_flag(f) {
                Some(b) => Some(BrilValueView::Bool(b)),
                None => match json_text(f) {
                    Some(t) => Some(BrilValueView::Text(t)),
                    None => None,
                },
            },
        },
        None => None,
    }
}

/// The instruction an instruction object describes, field by field.
pub open spec fn spec_instr_of(v: serde_json::Value) -> InstrView {
    InstrView {
        op: field_text(v, "op"@),
        label: field_text(v, "label"@),
        dest: field_text(v, "dest"@),
        typ: field_text(v, "type"@),
        args: field_texts(v, "args"@),
        labels: field_texts(v, "labels"@),
        funcs: field_texts(v, "funcs"@),
        value: field_literal(v),
    }
}

/// The instructions of an array of instruction objects, in order.
pub open spec fn instrs_of(items: Seq<serde_json::Value>) -> Seq<InstrView>
    decreases items.len(),
{
    if items.len() == 0 {
        Seq::empty()
    } else {
        instrs_of(items.drop_last()).push(spec_instr_of(items.last()))
    }
}

/// The formal parameters of an array of parameter objects, in order: an
/// object contributes a parameter when it has a string `name`, with its
/// string `type` or empty text; anything else is skipped.
pub open spec fn params_of(items: Seq<serde_json::Value>) -> Seq<ArgView>
    decreases items.len(),
{
    if items.len() == 0 {
        Seq::empty()
    } else {
        let rest = params_of(items.drop_last());
        match field_text(items.last(), "name"@) {
            Some(n) => rest.push(
                ArgView {
                    name: n,
                    typ: match field_text(items.last(), "type"@) {
                        Some(t) => t,
                        None => Seq::empty(),
                    },
                },
            ),
            None => rest,
        }
    }
}

/// The function a function object describes: its string `name` (or
/// `unnamed`), its parameters when `args` is an array, and the instructions
/// of its `instrs` array (none when absent or not an array).
pub open spec fn spec_func_of(v: serde_json::Value) -> FuncView {
    FuncView {
        name: match field_text(v, "name"@) {
            Some(n) => n,
            None => "unnamed"@,
        },
        args: match json_field(v, "args"@) {
            Some(f) => match json_items(f) {
                Some(items) => Some(params_of(items)),
                None => None,
            },
            None => None,
        },
        instructions: match json_field(v, "instrs"@) {
            Some(f) => match json_items(f) {
                Some(items) => instrs_of(items),
                None => Seq::empty(),
            },
            None => Seq::empty(),
        },
    }
}

/// The functions of an array of function objects, in order.
pub open spec fn funcs_of(items: Seq<serde_json::Value>) -> Seq<FuncView>
    decreases items.len(),
{
    if items.len() == 0 {
        Seq::empty()
    } else {
        funcs_of(items.drop_last()).push(spec_func_of(items.last()))
    }
}

/// The program a JSON document describes: the functions of its `functions`
/// array, or nothing when the document has no such array.
pub open spec fn spec_program_of(doc: serde_json::Value) -> Option<Seq<FuncView>> {
    match json_field(doc, "functions"@) {
        Some(f) => match json_items(f) {
            Some(items) => Some(funcs_of(items)),
            None => None,
        },
        None => None,
    }
}

/// Why a document could not be read as an IR program.
#[derive(Debug)]
pub enum BrilParseError {
    /// The document could not be read from its source.
    IoError(String),
    /// The text is not well-formed JSON.
    JsonError(serde_json::Error),
    /// The document is JSON but lacks the required shape.
    InvalidFormat(String),
}

impl BrilParseError {
    /// A one-line description of the failure.
    pub fn message(&self) -> (r: String)
        ensures
            match self {
                BrilParseError::IoError(m) => r@ == "IO error: "@ + m@,
                BrilParseError::JsonError(e) => r@ == "JSON error: "@ + json_error_text(*e),
                BrilParseError::InvalidFormat(m) => r@ == "Invalid format: "@ + m@,
            },
    {
        match self {
            BrilParseError::IoError(m) => {
                let mut s = "IO error: ".to_owned();
                s.append(m.as_str());
                s
            },
            BrilParseError::JsonError(e) => {
                let mut s = "JSON error: ".to_owned();
                let d = json_error_message(e);
                s.append(d.as_str());
                s
            },
            BrilParseError::InvalidFormat(m) => {
                let mut s = "Invalid format: ".to_owned();
                s.append(m.as_str());
                s
            },
        }
    }
}

impl From<serde_json::Error> for BrilParseError {
    /// Wraps a JSON syntax error.
    fn from(error: serde_json::Error) -> (r: Self)
        ensures
            r == BrilParseError::JsonError(error),
    {
        BrilParseError::JsonError(error)
    }
}

impl vstd::std_specs::convert::FromSpecImpl<serde_json::Error> for BrilParseError {
    open spec fn obeys_from_spec() -> bool {
        true
    }

    open spec fn from_spec(e: serde_json::Error) -> Self {
        BrilParseError::JsonError(e)
    }
}

/// Copies the strings among the elements of a JSON array, in order.
fn texts_from(items: &Vec<serde_json::Value>) -> (r: Vec<String>)
    ensures
        r.deep_view() == texts_of(items@),
{
    let mut out: Vec<String> = Vec::new();
    let mut i: usize = 0;
    proof {
        assert(out.deep_view() =~= texts_of(items@.take(0)));
    }
    while i < items.len()
        invariant
            0 <= i <= items@.len(),
            out.deep_view() == texts_of(items@.take(i as int)),
        decreases items@.len() - i,
    {
        proof {
            assert(items@.take(i + 1).drop_last() =~= items@.take(i as int));
            assert(items@.take(i + 1).last() == items@[i as int]);
        }
        match value_as_str(&items[i]) {
            Some(s) => {
                let ghost out0 = out.deep_view();
                let owned = s.to_owned();
                out.push(owned);
                proof {
                    assert(out.deep_view() =~= out0.push(s@));
                }
            },
            None => {},
        }
        i = i + 1;
    }
    proof {
        assert(items@.take(items@.len() as int) =~= items@);
    }
    out
}

/// Reads the string under a key of a JSON object.
fn field_string(v: &serde_json::Value, key: &str) -> (r: Option<String>)
    ensures
        r.deep_view() == field_text(*v, key@),
{
    match value_get(v, key) {
        Some(f) => match value_as_str(f) {
            Some(s) => Some(s.to_owned()),
            None => None,
        },
        None => None,
    }
}

/// Reads the strings of the array under a key of a JSON object.
fn field_string_list(v: &serde_json::Value, key: &str) -> (r: Option<Vec<String>>)
    ensures
        r.deep_view() == field_texts(*v, key@),
{
    match value_get(v, key) {
        Some(f) => match value_as_array(f) {
            Some(items) => Some(texts_from(items)),
            None => None,
        },
        None => None,
    }
}

/// Reads the literal under the `value` key of an instruction object.
fn field_lit(v: &serde_json::Value) -> (r: Option<BrilValue>)
    ensures
        r.deep_view() == field_literal(*v),
{
    match value_get(v, "value") {
        Some(f) => match value_as_i64(f) {
            Some(x) => Some(BrilValue::Int(x)),
            None => match value_as_bool(f) {
                Some(b) => Some(BrilValue::Bool(b)),
                None => match value_as_str(f) {
                    Some(t) => Some(BrilValue::Text(t.to_owned())),
                    None => None,
                },
            },
        },
        None => None,
    }
}

/// Surfaces an instruction object's fields as a plain instruction.
pub fn instr_from_json(v: &serde_json::Value) -> (r: BrilInstruction)
    ensures
        r@ == spec_instr_of(*v),
{
    BrilInstruction {
        op: field_string(v, "op"),
        label: field_string(v, "label"),
        dest: field_string(v, "dest"),
        typ: field_string(v, "type"),
        args: field_string_list(v, "args"),
        labels: field_string_list(v, "labels"),
        funcs: field_string_list(v, "funcs"),
        value: field_lit(v),
    }
}

/// Reads the formal parameters of a parameter array.
fn params_from(items: &Vec<serde_json::Value>) -> (r: Vec<BrilArg>)
    ensures
        r.deep_view() == params_of(items@),
{
    let mut out: Vec<BrilArg> = Vec::new();
    let mut i: usize = 0;
    proof {
        assert(out.deep_view() =~= params_of(items@.take(0)));
    }
    while i < items.len()
        invariant
            0 <= i <= items@.len(),
            out.deep_view() == params_of(items@.take(i as int)),
        decreases items@.len() - i,
    {
        proof {
            assert(items@.take(i + 1).drop_last() =~= items@.take(i as int));
            assert(items@.take(i + 1).last() == items@[i as int]);
        }
        match field_string(&items[i], "name") {
            Some(name) => {
                let typ = match field_string(&items[i], "type") {
                    Some(t) => t,
                    None => String::new(),
                };
                let ghost out0 = out.deep_view();
                let arg = BrilArg { name, typ };
                let ghost av = arg.deep_view();
                out.push(arg);
                proof {
                    assert(out.deep_view() =~= out0.push(av));
                }
            },
            None => {},
        }
        i = i + 1;
    }
    proof {
        assert(items@.take(items@.len() as int) =~= items@);
    }
    out
}

/// Reads one function object.
fn func_from_json(v: &serde_json::Value) -> (r: BrilFunction)
    ensures
        r.deep_view() == spec_func_of(*v),
{
    let name = match field_string(v, "name") {
        Some(n) => n,
        None => "unnamed".to_owned(),
    };
    let args = match value_get(v, "args") {
        Some(f) => match value_as_array(f) {
            Some(items) => Some(params_from(items)),
            None => None,
        },
        None => None,
    };
    let mut instructions: Vec<BrilInstruction> = Vec::new();
    match value_get(v, "instrs") {
        Some(f) => match value_as_array(f) {
            Some(items) => {
                let mut i: usize = 0;
                proof {
                    assert(instructions.deep_view() =~= instrs_of(items@.take(0)));
                }
                while i < items.len()
                    invariant
                        0 <= i <= items@.len(),
                        instructions.deep_view() == instrs_of(items@.take(i as int)),
                    decreases items@.len() - i,
                {
                    proof {
                        assert(items@.take(i + 1).drop_last() =~= items@.take(i as int));
                        assert(items@.take(i + 1).last() == items@[i as int]);
                    }
                    let ghost in0 = instructions.deep_view();
                    let instr = instr_from_json(&items[i]);
                    let ghost iv = instr@;
                    instructions.push(instr);
                    proof {
                        assert(instructions.deep_view() =~= in0.push(iv));
                    }
                    i = i + 1;
                }
                proof {
                    assert(items@.take(items@.len() as int) =~= items@);
                }
            },
            None => {
                proof {
                    assert(instructions.deep_view() =~= Seq::<InstrView>::empty());
                }
            },
        },
        None => {
            proof {
                assert(instructions.deep_view() =~= Seq::<InstrView>::empty());
            }
        },
    }
    let f = BrilFunction { name, args, instructions };
    proof {
        assert(f.deep_view().name == spec_func_of(*v).name);
        assert(f.deep_view().args == spec_func_of(*v).args);
        assert(f.deep_view().instructions == spec_func_of(*v).instructions);
    }
    f
}

/// Reads IR programs out of JSON documents.
pub struct BrilParser;

impl BrilParser {
    /// Reads a program from an already-parsed JSON document. Succeeds if
    /// and only if the document carries a `functions` array; the one failure
    /// names the missing array.
    pub fn from_json(json: serde_json::Value) -> (r: Result<BrilProgram, BrilParseError>)
        ensures
            r is Ok <==> spec_program_of(json) is Some,
            match r {
                Ok(p) => Some(p.deep_view()) == spec_program_of(json),
                Err(e) => e matches BrilParseError::InvalidFormat(m) && m@
                    == "Missing 'functions' array"@,
            },
    {
        let items = match value_get(&json, "functions") {
            Some(f) => match value_as_array(f) {
                Some(items) => items,
                None => {
                    return Err(
                        BrilParseError::InvalidFormat("Missing 'functions' array".to_owned()),
                    );
                },
            },
            None => {
                return Err(BrilParseError::InvalidFormat("Missing 'functions' array".to_owned()));
            },
        };
        let mut functions: Vec<BrilFunction> = Vec::new();
        let mut i: usize = 0;
        proof {
            assert(functions.deep_view() =~= funcs_of(items@.take(0)));
        }
        while i < items.len()
            invariant
                0 <= i <= items@.len(),
                functions.deep_view() == funcs_of(items@.take(i as int)),
            decreases items@.len() - i,
        {
            proof {
                assert(items@.take(i + 1).drop_last() =~= items@.take(i as int));
                assert(items@.take(i + 1).last() == items@[i as int]);
            }
            let ghost f0 = functions.deep_view();
            let f = func_from_json(&items[i]);
            let ghost fv = f.deep_view();
            functions.push(f);
            proof {
                assert(functions.deep_view() =~= f0.push(fv));
            }
            i = i + 1;
        }
        proof {
            assert(items@.take(items@.len() as int) =~= items@);
        }
        Ok(BrilProgram { functions })
    }

    /// Parses a program from JSON text. A text that is not well-formed JSON
    /// fails with the syntax error; well-formed JSON succeeds if and only if
    /// its document carries a `functions` array, and then yields exactly
    /// that document's program. Reading never fails for a reason of input
    /// and output.
    pub fn from_string(content: &str) -> (r: Result<BrilProgram, BrilParseError>)
        ensures
            r is Ok <==> (json_doc(content@) matches Some(v) && spec_program_of(v) is Some),
            match r {
                Ok(p) => json_doc(content@) matches Some(v) && spec_program_of(v) == Some(
                    p.deep_view(),
                ),
                Err(e) => match e {
                    BrilParseError::JsonError(_) => json_doc(content@) is None,
                    BrilParseError::InvalidFormat(m) => (json_doc(content@) matches Some(v)
                        && spec_program_of(v) is None) && m@ == "Missing 'functions' array"@,
                    BrilParseError::IoError(_) => false,
                },
            },
    {
        match json_from_str(content) {
            Ok(v) => {
                let ghost doc = v;
                let out = Self::from_json(v);
                proof {
                    assert(json_doc(content@) == Some(doc));
                    if out is Ok {
                        assert(spec_program_of(doc) == Some(out->Ok_0.deep_view()));
                    }
                }
                out
            },
            Err(e) => Err(BrilParseError::from(e)),
        }
    }
}

} // verus!
