use dataflow::ast::{Pass, ProgramAST};
use dataflow::basic_block::BasicBlock;
use dataflow::bril::BrilInstruction;
use dataflow::bril_parse::BrilParser;
use dataflow::dce::DeadCodeElimination;

fn const_instr(dest: &str, v: i64) -> BrilInstruction {
    let mut i = BrilInstruction::new();
    i.op = Some("const".to_string());
    i.dest = Some(dest.to_string());
    i.typ = Some("int".to_string());
    i.value = Some(dataflow::bril::BrilValue::Int(v));
    i
}

fn op_instr(op: &str, args: Vec<&str>) -> BrilInstruction {
    let mut i = BrilInstruction::new();
    i.op = Some(op.to_string());
    i.args = Some(args.into_iter().map(|s| s.to_string()).collect());
    i
}

#[test]
fn dce_removes_unused_definition() {
    // x = const 7; y = const 8; print y; ret — x is removed, the rest stays.
    let prog = BrilParser::from_string(
        r#"{"functions":[{"name":"main","instrs":[
            {"op":"const","dest":"x","type":"int","value":7},
            {"op":"const","dest":"y","type":"int","value":8},
            {"op":"print","args":["y"]},
            {"op":"ret"}
        ]}]}"#,
    )
    .expect("parse failed");
    let mut ast = ProgramAST::from_bril_program(prog);
    let dce = DeadCodeElimination::new();
    ast.apply_pass(&dce);
    let cfg = &ast.functions[0].cfg;
    let b = cfg.blocks.get(&cfg.block_order[0]).unwrap();
    assert_eq!(b.instructions.len(), 3);
    assert_eq!(b.instructions[0].get_dest(), Some("y"));
    assert_eq!(b.instructions[1].get_op(), Some("print"));
    assert_eq!(b.instructions[2].get_op(), Some("ret"));
}

#[test]
fn dce_is_local_only() {
    // A value defined in one block and consumed only in another is removed
    // from the defining block: the analysis is strictly intra-block.
    let prog = BrilParser::from_string(
        r#"{"functions":[{"name":"main","instrs":[
            {"op":"const","dest":"v","type":"int","value":1},
            {"op":"jmp","labels":["use"]},
            {"label":"use"},
            {"op":"print","args":["v"]},
            {"op":"ret"}
        ]}]}"#,
    )
    .expect("parse failed");
    let mut ast = ProgramAST::from_bril_program(prog);
    let dce = DeadCodeElimination::new();
    dce.apply(&mut ast.functions[0]);
    let cfg = &ast.functions[0].cfg;
    let defining = cfg.blocks.get(&cfg.block_order[0]).unwrap();
    // Only the jmp remains: the definition of v is gone.
    assert_eq!(defining.instructions.len(), 1);
    assert_eq!(defining.instructions[0].get_op(), Some("jmp"));
}

#[test]
fn dce_keeps_instructions_without_dest() {
    let mut b = BasicBlock::new(
        "b".to_string(),
        vec![op_instr("print", vec!["q"]), op_instr("ret", vec![])],
    );
    let dce = DeadCodeElimination::new();
    dce.local_dce(&mut b);
    assert_eq!(b.instructions.len(), 2);
}

#[test]
fn dce_idempotent_when_uses_survive() {
    // y = const 8; print y; ret — a second pass changes nothing.
    let mut b = BasicBlock::new(
        "b".to_string(),
        vec![const_instr("x", 7), const_instr("y", 8), op_instr("print", vec!["y"]), op_instr(
            "ret",
            vec![],
        )],
    );
    let dce = DeadCodeElimination::new();
    dce.local_dce(&mut b);
    let once = b.instructions.clone();
    dce.local_dce(&mut b);
    assert_eq!(b.instructions, once);
}

#[test]
fn dce_second_pass_can_remove_more() {
    // x = const 7; y = add x x; ret — the first pass removes y (unused),
    // after which x's only use is gone, so a second pass removes x: the
    // single pass is not idempotent on such a block.
    let mut add = op_instr("add", vec!["x", "x"]);
    add.dest = Some("y".to_string());
    add.typ = Some("int".to_string());
    let mut b = BasicBlock::new(
        "b".to_string(),
        vec![const_instr("x", 7), add, op_instr("ret", vec![])],
    );
    let dce = DeadCodeElimination::new();
    dce.local_dce(&mut b);
    assert_eq!(b.instructions.len(), 2);
    let once = b.instructions.clone();
    dce.local_dce(&mut b);
    assert_eq!(b.instructions.len(), 1);
    assert_ne!(b.instructions, once);
}
