use dataflow::basic_block::BasicBlock;
use dataflow::bril::BrilProgram;
use dataflow::bril_parse::BrilParser;
use dataflow::cfg::ControlFlowGraph;

fn parse(text: &str) -> BrilProgram {
    match BrilParser::from_string(text) {
        Ok(p) => p,
        Err(e) => panic!("parse failed: {}", e.message()),
    }
}

fn cfg_of(text: &str) -> ControlFlowGraph {
    let prog = parse(text);
    ControlFlowGraph::from_bril_function(&prog.functions[0])
}

fn block<'a>(cfg: &'a ControlFlowGraph, name: &str) -> &'a BasicBlock {
    cfg.blocks.get(name).expect("block missing")
}

#[test]
fn terminator_synthesis() {
    // Two labeled blocks A and B, where A ends without a terminator: A gets
    // a jmp to B, and B a synthesized ret with empty args.
    let cfg = cfg_of(
        r#"{"functions":[{"name":"main","instrs":[
            {"label":"A"},
            {"op":"const","dest":"x","type":"int","value":1},
            {"label":"B"},
            {"op":"const","dest":"y","type":"int","value":2}
        ]}]}"#,
    );
    assert_eq!(cfg.block_order, vec!["A".to_string(), "B".to_string()]);
    let a_last = block(&cfg, "A").last().unwrap();
    assert_eq!(a_last.get_op(), Some("jmp"));
    assert_eq!(a_last.get_labels(), Some(vec!["B".to_string()]));
    let b_last = block(&cfg, "B").last().unwrap();
    assert_eq!(b_last.get_op(), Some("ret"));
    assert_eq!(b_last.get_args(), Some(Vec::new()));
}

#[test]
fn name_collision() {
    // An unlabeled block named after its dest "foo", then a block labeled
    // "foo": the second is renamed foo1 and the fall-through edge of the
    // first points at foo1.
    let cfg = cfg_of(
        r#"{"functions":[{"name":"main","instrs":[
            {"op":"const","dest":"foo","type":"int","value":1},
            {"label":"foo"},
            {"op":"ret"}
        ]}]}"#,
    );
    assert_eq!(cfg.block_order, vec!["foo".to_string(), "foo1".to_string()]);
    let first_last = block(&cfg, "foo").last().unwrap();
    assert_eq!(first_last.get_op(), Some("jmp"));
    assert_eq!(first_last.get_labels(), Some(vec!["foo1".to_string()]));
    let succs = cfg.edges.get("foo").unwrap();
    assert_eq!(succs, &vec!["foo1".to_string()]);
}

#[test]
fn colliding_dest_names() {
    // Two successive blocks both proposing "foo" from their first dest: the
    // second becomes foo1.
    let cfg = cfg_of(
        r#"{"functions":[{"name":"main","instrs":[
            {"op":"const","dest":"foo","type":"int","value":1},
            {"op":"ret"},
            {"op":"const","dest":"foo","type":"int","value":2}
        ]}]}"#,
    );
    assert_eq!(cfg.block_order, vec!["foo".to_string(), "foo1".to_string()]);
}

const BRANCHY: &str = r#"{"functions":[{"name":"main","instrs":[
    {"label":"entry"},
    {"op":"const","dest":"c","type":"bool","value":true},
    {"op":"br","args":["c"],"labels":["then","else"]},
    {"label":"then"},
    {"op":"const","dest":"x","type":"int","value":1},
    {"op":"jmp","labels":["join"]},
    {"label":"else"},
    {"op":"const","dest":"x","type":"int","value":2},
    {"label":"join"},
    {"op":"print","args":["x"]}
]}]}"#;

#[test]
fn every_block_ends_in_terminator() {
    let cfg = cfg_of(BRANCHY);
    assert!(cfg.blocks.len() > 0);
    for i in 0..cfg.blocks.len() {
        let b = cfg.blocks.val_at(i);
        let last = b.last().expect("block is empty");
        let op = last.get_op().expect("last instruction has no op");
        assert!(op == "jmp" || op == "br" || op == "ret", "bad terminator: {}", op);
    }
}

#[test]
fn block_identifiers_distinct() {
    let cfg = cfg_of(BRANCHY);
    let order = &cfg.block_order;
    for i in 0..order.len() {
        for j in 0..i {
            assert_ne!(order[i], order[j]);
        }
    }
}

#[test]
fn block_order_enumerates_keys() {
    let cfg = cfg_of(BRANCHY);
    assert_eq!(cfg.block_order.len(), cfg.blocks.len());
    for name in &cfg.block_order {
        assert!(cfg.blocks.contains_key(name));
    }
    for i in 0..cfg.blocks.len() {
        assert!(cfg.block_order.contains(cfg.blocks.key_at(i)));
    }
}

#[test]
fn successor_labels_are_keys() {
    let cfg = cfg_of(BRANCHY);
    for i in 0..cfg.edges.len() {
        let succs = cfg.edges.val_at(i);
        for s in succs {
            assert!(cfg.blocks.contains_key(s), "dangling successor: {}", s);
        }
    }
    // br lists both targets in declared order; equal-target duplication is
    // permitted, here they differ.
    assert_eq!(cfg.edges.get("entry").unwrap(), &vec!["then".to_string(), "else".to_string()]);
    assert_eq!(cfg.edges.get("join").unwrap(), &Vec::<String>::new());
}

#[test]
fn entry_block_is_first() {
    let cfg = cfg_of(BRANCHY);
    assert_eq!(cfg.entry_block.as_deref(), Some("entry"));
    assert_eq!(cfg.block_order[0], "entry");
}

#[test]
fn empty_function_empty_cfg() {
    let cfg = cfg_of(r#"{"functions":[{"name":"main","instrs":[]}]}"#);
    assert_eq!(cfg.blocks.len(), 0);
    assert_eq!(cfg.block_order.len(), 0);
    assert!(cfg.entry_block.is_none());
}

#[test]
fn block_name_priority() {
    // No label and no dest: the comma-joined funcs name the block, else the
    // op, else the caller-supplied fallback.
    let cfg = cfg_of(
        r#"{"functions":[{"name":"main","instrs":[
            {"op":"call","funcs":["f","g"]},
            {"op":"ret"}
        ]}]}"#,
    );
    assert_eq!(cfg.block_order, vec!["f, g".to_string()]);

    let cfg2 = cfg_of(
        r#"{"functions":[{"name":"main","instrs":[
            {"op":"print","args":["x"]},
            {"op":"ret"}
        ]}]}"#,
    );
    assert_eq!(cfg2.block_order, vec!["print".to_string()]);

    let cfg3 = cfg_of(r#"{"functions":[{"name":"main","instrs":[{}]}]}"#);
    assert_eq!(cfg3.block_order, vec!["b0".to_string()]);
}
