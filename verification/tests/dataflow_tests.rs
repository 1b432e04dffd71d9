use dataflow::ast::ProgramAST;
use dataflow::basic_block::BasicBlock;
use dataflow::bril::BrilInstruction;
use dataflow::bril_parse::BrilParser;
use dataflow::df::{DataFlow, State, VarMap};
use dataflow::smap::StrMap;

fn analyzed(text: &str) -> (ProgramAST, StrMap<VarMap>, StrMap<VarMap>) {
    let prog = BrilParser::from_string(text).expect("parse failed");
    let ast = ProgramAST::from_bril_program(prog);
    let df = DataFlow::new();
    let f = &ast.functions[0];
    let (ins, outs) = df.worklist(&f.cfg, f.bril_function.get_args()).expect("no convergence");
    (ast, ins, outs)
}

fn state_of(sets: &StrMap<VarMap>, block: &str, var: &str) -> State {
    *sets.get(block).expect("block missing").get(var).expect("variable missing")
}

#[test]
fn straight_line_constant_fold() {
    // a = const 4; b = const 2; c = add a b; print c; ret — one block,
    // out[entry] has a=4, b=2, c=6.
    let (ast, _ins, outs) = analyzed(
        r#"{"functions":[{"name":"main","instrs":[
            {"op":"const","dest":"a","type":"int","value":4},
            {"op":"const","dest":"b","type":"int","value":2},
            {"op":"add","dest":"c","type":"int","args":["a","b"]},
            {"op":"print","args":["c"]},
            {"op":"ret"}
        ]}]}"#,
    );
    let entry = ast.functions[0].cfg.entry_block.clone().unwrap();
    assert_eq!(state_of(&outs, &entry, "a"), State::Const(4));
    assert_eq!(state_of(&outs, &entry, "b"), State::Const(2));
    assert_eq!(state_of(&outs, &entry, "c"), State::Const(6));
}

#[test]
fn join_of_equal_constants() {
    // Both predecessors of L define x = Const(1): at L, in[L][x] = Const(1).
    let (_ast, ins, _outs) = analyzed(
        r#"{"functions":[{"name":"main","instrs":[
            {"op":"const","dest":"x","type":"int","value":1},
            {"op":"jmp","labels":["L"]},
            {"label":"M"},
            {"op":"const","dest":"x","type":"int","value":1},
            {"op":"jmp","labels":["L"]},
            {"label":"L"},
            {"op":"id","dest":"z","type":"int","args":["x"]},
            {"op":"ret"}
        ]}]}"#,
    );
    assert_eq!(state_of(&ins, "L", "x"), State::Const(1));
}

#[test]
fn join_of_unequal_constants() {
    // One arm sets x = 1, the other x = 2: at the join, in[L][x] = NAC.
    let (_ast, ins, _outs) = analyzed(
        r#"{"functions":[{"name":"main","instrs":[
            {"op":"const","dest":"x","type":"int","value":1},
            {"op":"jmp","labels":["L"]},
            {"label":"M"},
            {"op":"const","dest":"x","type":"int","value":2},
            {"op":"jmp","labels":["L"]},
            {"label":"L"},
            {"op":"id","dest":"z","type":"int","args":["x"]},
            {"op":"ret"}
        ]}]}"#,
    );
    assert_eq!(state_of(&ins, "L", "x"), State::NAC);
}

#[test]
fn division_by_zero_does_not_trap() {
    let (ast, _ins, outs) = analyzed(
        r#"{"functions":[{"name":"main","instrs":[
            {"op":"const","dest":"a","type":"int","value":5},
            {"op":"const","dest":"b","type":"int","value":0},
            {"op":"div","dest":"c","type":"int","args":["a","b"]},
            {"op":"ret"}
        ]}]}"#,
    );
    let entry = ast.functions[0].cfg.entry_block.clone().unwrap();
    assert_eq!(state_of(&outs, &entry, "c"), State::NAC);
}

#[test]
fn string_constants_parse_as_integers() {
    let (ast, _ins, outs) = analyzed(
        r#"{"functions":[{"name":"main","instrs":[
            {"op":"const","dest":"a","type":"int","value":"41"},
            {"op":"const","dest":"b","type":"int","value":"nope"},
            {"op":"const","dest":"c","type":"bool","value":true},
            {"op":"ret"}
        ]}]}"#,
    );
    let entry = ast.functions[0].cfg.entry_block.clone().unwrap();
    assert_eq!(state_of(&outs, &entry, "a"), State::Const(41));
    assert_eq!(state_of(&outs, &entry, "b"), State::NAC);
    // Booleans stay NAC: the lattice is integer-only.
    assert_eq!(state_of(&outs, &entry, "c"), State::NAC);
}

#[test]
fn parameters_start_undefined() {
    let (ast, ins, _outs) = analyzed(
        r#"{"functions":[{"name":"main","args":[{"name":"p","type":"int"}],"instrs":[
            {"op":"id","dest":"q","type":"int","args":["p"]},
            {"op":"ret"}
        ]}]}"#,
    );
    let entry = ast.functions[0].cfg.entry_block.clone().unwrap();
    assert_eq!(state_of(&ins, &entry, "p"), State::Undef);
}

#[test]
fn untyped_arithmetic_is_nac() {
    // Folding is gated on the "int" type tag.
    let (ast, _ins, outs) = analyzed(
        r#"{"functions":[{"name":"main","instrs":[
            {"op":"const","dest":"a","type":"int","value":4},
            {"op":"const","dest":"b","type":"int","value":2},
            {"op":"add","dest":"c","args":["a","b"]},
            {"op":"ret"}
        ]}]}"#,
    );
    let entry = ast.functions[0].cfg.entry_block.clone().unwrap();
    assert_eq!(state_of(&outs, &entry, "c"), State::NAC);
}

#[test]
fn worklist_order_independent() {
    // Drain the worklist in program order and in reversed order: the fixed
    // points agree.
    let text = r#"{"functions":[{"name":"main","instrs":[
        {"op":"const","dest":"x","type":"int","value":1},
        {"op":"jmp","labels":["L"]},
        {"label":"M"},
        {"op":"const","dest":"x","type":"int","value":2},
        {"op":"jmp","labels":["L"]},
        {"label":"L"},
        {"op":"add","dest":"y","type":"int","args":["x","x"]},
        {"op":"ret"}
    ]}]}"#;
    let prog = BrilParser::from_string(text).expect("parse failed");
    let ast = ProgramAST::from_bril_program(prog);
    let df = DataFlow::new();
    let f = &ast.functions[0];
    let forward = f.cfg.block_order.clone();
    let mut backward = forward.clone();
    backward.reverse();
    let (_i1, o1) = df.worklist_seeded(&f.cfg, f.bril_function.get_args(), &forward).unwrap();
    let (_i2, o2) = df.worklist_seeded(&f.cfg, f.bril_function.get_args(), &backward).unwrap();
    assert_eq!(o1.len(), o2.len());
    for name in &f.cfg.block_order {
        let a = o1.get(name).unwrap();
        let b = o2.get(name).unwrap();
        assert!(a.state_map_eq(b), "outputs differ at block {}", name);
    }
}

#[test]
fn transfer_monotone_without_folding() {
    // m1 <= m2 pointwise gives transfer(b, m1) <= transfer(b, m2) on a block
    // without folding sites.
    let mut id_i = BrilInstruction::new();
    id_i.op = Some("id".to_string());
    id_i.dest = Some("y".to_string());
    id_i.args = Some(vec!["x".to_string()]);
    let mut ret_i = BrilInstruction::new();
    ret_i.op = Some("ret".to_string());
    let b = BasicBlock::new("b".to_string(), vec![id_i, ret_i]);

    let m1: VarMap = StrMap::new();
    let mut m2: VarMap = StrMap::new();
    m2.set("x".to_string(), State::Const(1));

    let df = DataFlow::new();
    let o1 = df.transfer(&b, &m1);
    let o2 = df.transfer(&b, &m2);
    // y: Undef below Const(1).
    assert_eq!(*o1.get("y").unwrap(), State::Undef);
    assert_eq!(*o2.get("y").unwrap(), State::Const(1));
}

#[test]
fn transfer_kills_prior_state() {
    let mut c1 = BrilInstruction::new();
    c1.op = Some("const".to_string());
    c1.dest = Some("x".to_string());
    c1.typ = Some("int".to_string());
    c1.value = Some(dataflow::bril::BrilValue::Int(7));
    let b = BasicBlock::new("b".to_string(), vec![c1]);
    let mut m: VarMap = StrMap::new();
    m.set("x".to_string(), State::NAC);
    let df = DataFlow::new();
    let o = df.transfer(&b, &m);
    assert_eq!(*o.get("x").unwrap(), State::Const(7));
}

#[test]
fn loop_reaches_fixed_point() {
    // A cyclic graph: x is re-defined around the loop, so it meets to NAC at
    // the loop head, while the invariant constant stays known.
    let (_ast, ins, _outs) = analyzed(
        r#"{"functions":[{"name":"main","instrs":[
            {"op":"const","dest":"x","type":"int","value":0},
            {"op":"const","dest":"one","type":"int","value":1},
            {"op":"jmp","labels":["loop"]},
            {"label":"loop"},
            {"op":"add","dest":"x","type":"int","args":["x","one"]},
            {"op":"jmp","labels":["loop"]}
        ]}]}"#,
    );
    assert_eq!(state_of(&ins, "loop", "x"), State::NAC);
    assert_eq!(state_of(&ins, "loop", "one"), State::Const(1));
}

#[test]
fn non_integer_constants_are_nac() {
    // A fractional literal and a number beyond i64 both surface without an
    // integer payload, and the analysis treats them as not-a-constant.
    let (ast, _ins, outs) = analyzed(
        r#"{"functions":[{"name":"main","instrs":[
            {"op":"const","dest":"f","type":"float","value":2.5},
            {"op":"const","dest":"g","type":"int","value":18446744073709551615},
            {"op":"ret"}
        ]}]}"#,
    );
    let entry = ast.functions[0].cfg.entry_block.clone().unwrap();
    assert_eq!(state_of(&outs, &entry, "f"), State::NAC);
    assert_eq!(state_of(&outs, &entry, "g"), State::NAC);
}

#[test]
fn branch_with_equal_targets_duplicates_edge() {
    let prog = BrilParser::from_string(
        r#"{"functions":[{"name":"main","instrs":[
            {"label":"top"},
            {"op":"br","args":["c"],"labels":["done","done"]},
            {"label":"done"},
            {"op":"ret"}
        ]}]}"#,
    )
    .expect("parse failed");
    let ast = ProgramAST::from_bril_program(prog);
    let cfg = &ast.functions[0].cfg;
    assert_eq!(cfg.edges.get("top").unwrap(), &vec!["done".to_string(), "done".to_string()]);
}

#[test]
fn merge_of_no_predecessors_is_empty() {
    let df = DataFlow::new();
    let r = df.merge(&Vec::new());
    assert_eq!(r.len(), 0);
}

#[test]
fn merge_missing_keys_count_as_undef() {
    let df = DataFlow::new();
    let mut p1: VarMap = StrMap::new();
    p1.set("x".to_string(), State::Const(3));
    let p2: VarMap = StrMap::new();
    let r = df.merge(&vec![p1, p2]);
    assert_eq!(*r.get("x").unwrap(), State::Const(3));
}
