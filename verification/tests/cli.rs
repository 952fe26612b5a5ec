use ionize::cli::args::Heat;
use ionize::cli::data::{
    is_xml_char, pick, select, xml_text, Func, Ion, Lir, LirBlock, Mir, MirBlock, MirIns, Pass,
};
use ionize::cli::draw::{
    build_graph, each_piece, edges, has, mir_class, pretty, title, validate_blocks, word,
};
use ionize::cli::data::{check_version, samples_from, Counts, LirIns, Sel};
use ionize::cli::err::{draw_err, CliErr};
use ionize::cli::tables::{block, build, lir_table, mir_table, opcode_cell, sample, sample_cell};
use ionize::draw::err::DrawErr;
use ionize::draw::model::{Align, Text, Value};
use ionize::err::LayoutErr;
use ionize::graph::Id;
use std::collections::BTreeMap;

fn strings(v: &[&str]) -> Vec<String> {
    v.iter().map(|s| s.to_string()).collect()
}

fn mir_block(ptr: u64, id: u64, attrs: &[&str], preds: &[u64], succs: &[u64]) -> MirBlock {
    MirBlock {
        ptr,
        id,
        depth: 0,
        attributes: strings(attrs),
        predecessors: preds.to_vec(),
        successors: succs.to_vec(),
        instructions: Vec::new(),
    }
}

fn lir_block(ptr: u64, id: u64) -> LirBlock {
    LirBlock { ptr, id, instructions: Vec::new() }
}

fn pass(name: &str, mir: Vec<MirBlock>, lir: Vec<LirBlock>) -> Pass {
    Pass { name: name.to_string(), mir: Mir { blocks: mir }, lir: Lir { blocks: lir } }
}

fn msg(e: CliErr) -> String {
    e.message().clone()
}

#[test]
fn picks_by_index_or_name() {
    let names = strings(&["main", "helper", "main2"]);
    assert_eq!(pick(&names, "1", "function").ok(), Some(1));
    assert_eq!(pick(&names, "+2", "function").ok(), Some(2));
    assert_eq!(pick(&names, "helper", "function").ok(), Some(1));
    assert_eq!(
        msg(pick(&names, "3", "function").unwrap_err()),
        "function index 3 is out of range; found 3 functions"
    );
    assert_eq!(msg(pick(&names, "nope", "pass").unwrap_err()), "no pass is named \"nope\"");
    assert_eq!(msg(pick(&names, "-1", "pass").unwrap_err()), "no pass is named \"-1\"");
    let twice = strings(&["a", "b", "a"]);
    assert_eq!(
        msg(pick(&twice, "a", "pass").unwrap_err()),
        "pass name \"a\" is ambiguous; use its zero-based index"
    );
    let numeric = strings(&["99999999999999999999999"]);
    assert_eq!(pick(&numeric, "99999999999999999999999", "pass").ok(), Some(0));
}

#[test]
fn selects_function_and_pass() {
    let ion = Ion {
        functions: vec![
            Func { name: "f".to_string(), passes: vec![pass("p0", vec![], vec![])] },
            Func {
                name: "g".to_string(),
                passes: vec![pass("a", vec![], vec![]), pass("b", vec![], vec![])],
            },
        ],
    };
    let sel = select(ion, "g", "1").ok().unwrap();
    assert_eq!(sel.func_name, "g");
    assert_eq!(sel.pass.name, "b");
    assert_eq!(sel.func_idx, 1);
    assert_eq!(sel.pass_idx, 1);

    let ion = Ion { functions: vec![Func { name: "f".to_string(), passes: vec![] }] };
    assert_eq!(
        msg(select(ion, "0", "0").err().unwrap()),
        "pass index 0 is out of range; found 0 passs"
    );
}

#[test]
fn xml_text_replaces() {
    assert!(is_xml_char('x'));
    assert!(!is_xml_char('\u{8}'));
    assert_eq!(xml_text("a\u{8}b"), "a\u{FFFD}b");
}

#[test]
fn attributes_and_classes() {
    let attrs = strings(&["Guard", "Movable", "InWorklist"]);
    assert!(has(&attrs, "Guard"));
    assert!(!has(&attrs, "guard"));
    assert_eq!(mir_class(&attrs), "mir movable guard worklist");
    assert_eq!(mir_class(&[]), "mir");
    assert_eq!(mir_class(&strings(&["RecoveredOnBailout"])), "mir recovered");
    assert!(word(b'a') && word(b'Z') && word(b'0') && word(b'_'));
    assert!(!word(b'#') && !word(b' ') && !word(0xC3));
}

#[test]
fn block_titles() {
    assert_eq!(title(&mir_block(1, 4, &["loopheader", "backedge"], &[], &[])), "Block 4 (loop header)");
    assert_eq!(title(&mir_block(1, 5, &["backedge"], &[], &[])), "Block 5 (backedge)");
    assert_eq!(title(&mir_block(1, 6, &["splitedge"], &[], &[])), "Block 6 (split edge)");
    assert_eq!(title(&mir_block(1, 7, &[], &[], &[])), "Block 7");
}

#[test]
fn pretty_arrows() {
    assert_eq!(pretty("Foo"), "Foo");
    assert_eq!(pretty("a->b->c"), "a→b->c");
    assert_eq!(pretty("x<-y"), "x←y");
    assert_eq!(pretty("p->q<-r"), "p→q←r");
    assert_eq!(pretty("<->"), "<→");
}

fn pieces(text: &str) -> Vec<(String, bool)> {
    each_piece(text).into_iter().map(|p| (p.text, p.use_ref)).collect()
}

#[test]
fn splits_use_references() {
    assert_eq!(
        pieces("add v1#2, v3#45"),
        vec![
            ("add ".to_string(), false),
            ("v1#2".to_string(), true),
            (", ".to_string(), false),
            ("v3#45".to_string(), true),
        ]
    );
    assert_eq!(pieces("a#12b#3"), vec![("a#12".to_string(), true), ("b#3".to_string(), true)]);
    assert_eq!(pieces("x# é#1"), vec![("x# é#1".to_string(), false)]);
    assert_eq!(pieces("é v#1"), vec![("é ".to_string(), false), ("v#1".to_string(), true)]);
    assert_eq!(pieces(""), Vec::<(String, bool)>::new());
    assert_eq!(pieces("plain"), vec![("plain".to_string(), false)]);
}

#[test]
fn pieces_make_up_the_opcode() {
    for text in ["add v1#2, v3#45", "a#12b#3", "x# é#1", "é v#1", "", "plain", "#1 v#", "Box v0#0"] {
        let parts = pieces(text);
        assert_eq!(parts.iter().map(|(t, _)| t.as_str()).collect::<String>(), text);
        assert!(parts.iter().all(|(t, _)| !t.is_empty()));
    }
}

#[test]
fn checks_blocks() {
    let ok = pass(
        "p",
        vec![mir_block(10, 0, &[], &[], &[1]), mir_block(11, 1, &[], &[0], &[])],
        vec![lir_block(20, 1), lir_block(21, 0)],
    );
    let map = validate_blocks(&ok).ok().unwrap();
    assert_eq!(map.get(&1), Some(&0));
    assert_eq!(map.get(&0), Some(&1));

    let null = pass("p", vec![mir_block(0, 3, &[], &[], &[])], vec![]);
    assert_eq!(msg(validate_blocks(&null).err().unwrap()), "MIR block 3 has a null ptr");
    let dup = pass("p", vec![mir_block(1, 3, &[], &[], &[]), mir_block(2, 3, &[], &[], &[])], vec![]);
    assert_eq!(msg(validate_blocks(&dup).err().unwrap()), "duplicate MIR block id 3");
    let dup = pass("p", vec![mir_block(1, 3, &[], &[], &[]), mir_block(1, 4, &[], &[], &[])], vec![]);
    assert_eq!(msg(validate_blocks(&dup).err().unwrap()), "duplicate MIR block ptr 1");
    let dup = pass("p", vec![], vec![lir_block(1, 2), lir_block(3, 2)]);
    assert_eq!(msg(validate_blocks(&dup).err().unwrap()), "duplicate LIR block id 2");
    let dup = pass("p", vec![], vec![lir_block(1, 2), lir_block(1, 3)]);
    assert_eq!(msg(validate_blocks(&dup).err().unwrap()), "duplicate LIR block ptr 1");
}

#[test]
fn maps_edges() {
    let mut ids = BTreeMap::new();
    ids.insert(7u64, Id::from_index(0));
    ids.insert(9u64, Id::from_index(1));
    assert_eq!(
        edges(&ids, 7, "successor", &[9, 7]).ok(),
        Some(vec![Id::from_index(1), Id::from_index(0)])
    );
    assert_eq!(
        msg(edges(&ids, 7, "successor", &[9, 8]).err().unwrap()),
        "MIR block 7 refers to unknown successor block 8"
    );
}

#[test]
fn builds_graph() {
    let p = pass(
        "p",
        vec![
            mir_block(10, 5, &[], &[], &[6]),
            mir_block(11, 6, &["loopheader"], &[5, 7], &[7]),
            mir_block(12, 7, &["backedge"], &[6], &[6]),
        ],
        vec![],
    );
    let (g, _) = build_graph(&p).ok().unwrap();
    assert_eq!(g.len(), 3);
    let h = g.node(Id::from_index(1));
    assert_eq!(h.preds, vec![Id::from_index(0), Id::from_index(2)]);
    assert_eq!(h.succs, vec![Id::from_index(2)]);
    assert_eq!(h.flags.0, 1);
    assert_eq!(g.node(Id::from_index(2)).flags.0, 2);

    let bad = pass("p", vec![mir_block(10, 5, &[], &[4], &[])], vec![]);
    assert_eq!(
        msg(build_graph(&bad).err().unwrap()),
        "MIR block 5 refers to unknown predecessor block 4"
    );
    assert_eq!(Heat::Total, Heat::Total);
    let _ = MirIns {
        ptr: 1,
        id: 1,
        opcode: "x".to_string(),
        attributes: vec![],
        ty: "None".to_string(),
    };
}

fn f(x: f64) -> u64 {
    x.to_bits()
}

fn text_of(t: &Text) -> String {
    match &t.0 {
        Value::Str(s) => s.clone(),
        Value::Int(n) => n.to_string(),
        Value::Num(b) => f64::from_bits(*b).to_string(),
    }
}

#[test]
fn reads_sample_counts() {
    let s = samples_from(vec![(1, f(3.0)), (2, f(0.0))], vec![(1, f(1.0))]).ok().unwrap();
    assert_eq!(s.get(1), Counts { total: f(3.0), self_count: f(1.0) });
    assert_eq!(s.get(2), Counts { total: f(0.0), self_count: 0 });
    assert_eq!(s.get(9), Counts::default());
    let e = samples_from(vec![(1, f(3.0)), (5, f(-1.0))], vec![]).err().unwrap();
    assert_eq!(msg(e), "totalLineHits count for instruction 5 must be finite and non-negative");
    let e = samples_from(vec![], vec![(6, f(f64::NAN))]).err().unwrap();
    assert_eq!(msg(e), "selfLineHits count for instruction 6 must be finite and non-negative");
    assert_eq!(sample(Counts { total: 4, self_count: 5 }, Heat::Total), 4);
    assert_eq!(sample(Counts { total: 4, self_count: 5 }, Heat::SelfCount), 5);
}

#[test]
fn checks_versions() {
    assert!(check_version(Some((true, "1".to_string()))).is_ok());
    assert_eq!(
        msg(check_version(Some((false, "2".to_string()))).err().unwrap()),
        "unsupported ion.json version 2; expected 1"
    );
    assert_eq!(
        msg(check_version(None).err().unwrap()),
        "ion.json must explicitly declare version 1"
    );
}

#[test]
fn turns_drawing_errors_into_messages() {
    assert_eq!(
        msg(draw_err(DrawErr::Layout(LayoutErr::NoRoot))),
        "could not lay out graph: non-empty graph has no layout root"
    );
    assert_eq!(msg(draw_err(DrawErr::Invalid("bad".to_string()))), "bad");
    assert_eq!(msg(CliErr::new("x".to_string())), "x");
}

#[test]
fn builds_cells() {
    let c = sample_cell(f(0.0));
    assert_eq!(c.class, "sample dim");
    assert_eq!(c.align, Align::End);
    assert_eq!(sample_cell(f(2.0)).class, "sample");
    let c = opcode_cell("add v1#2->x");
    let runs: Vec<(String, String)> =
        c.runs.as_slice().iter().map(|r| (text_of(&r.text), r.class.clone())).collect();
    assert_eq!(
        runs,
        vec![
            ("add ".to_string(), "opcode".to_string()),
            ("v1#2".to_string(), "use".to_string()),
            ("→x".to_string(), "opcode".to_string()),
        ]
    );
    assert_eq!(c.runs.as_slice()[1].pad, f(3.5));
}

fn mir_ins(id: u64, op: &str, ty: &str, attrs: &[&str]) -> MirIns {
    MirIns { ptr: 100 + id, id, opcode: op.to_string(), attributes: strings(attrs), ty: ty.to_string() }
}

#[test]
fn builds_tables() {
    let mut b = mir_block(10, 1, &[], &[], &[]);
    b.instructions = vec![mir_ins(3, "Const", "Int32", &["Movable"]), mir_ins(4, "Goto", "None", &[])];
    let t = mir_table(&b);
    assert_eq!(t.cols.len(), 3);
    assert_eq!(t.rows.len(), 2);
    assert_eq!(t.rows[0].class, "mir movable");
    assert_eq!(t.rows[1].cells[2].runs.as_slice().len(), 0);
    assert_eq!(t.rows[0].cells[2].class, "type");
    assert_eq!(t.rows[0].attrs[0].name, "data-ins-ptr");

    let lir = LirBlock {
        ptr: 20,
        id: 1,
        instructions: vec![LirIns { ptr: 30, id: 7, mir_ptr: Some(103), opcode: "a->b".to_string() }],
    };
    let plain = lir_table(&lir, None, Heat::Total);
    assert_eq!(plain.cols.len(), 2);
    assert!(plain.head.is_none());
    assert_eq!(plain.rows[0].attrs.len(), 3);
    assert_eq!(plain.rows[0].heat, None);
    let s = samples_from(vec![(7, f(6.0))], vec![(7, f(2.0))]).ok().unwrap();
    let hot = lir_table(&lir, Some(&s), Heat::SelfCount);
    assert_eq!(hot.cols.len(), 4);
    assert_eq!(hot.head.as_ref().unwrap().cells.len(), 4);
    assert_eq!(hot.rows[0].cells.len(), 4);
    assert_eq!(hot.rows[0].heat, Some(f(2.0)));
    assert_eq!(text_of(&hot.rows[0].cells[1].runs.as_slice()[0].text), "a→b");

    let mut branch = mir_block(10, 1, &["loopheader", "splitedge"], &[], &[2, 3]);
    branch.instructions = vec![];
    let bk = block(&branch, Some(&lir), None, Heat::Total);
    assert_eq!(bk.class, "loop");
    assert_eq!(bk.body_class, "split");
    assert_eq!(bk.attrs.len(), 3);
    assert_eq!(bk.labels.len(), 2);
    assert_eq!(text_of(&bk.title), "Block 1 (loop header)");
}

#[test]
fn builds_the_diagram() {
    let p = pass(
        "GVN",
        vec![mir_block(10, 0, &[], &[], &[1]), mir_block(11, 1, &[], &[0], &[])],
        vec![lir_block(20, 1)],
    );
    let sel = Sel { func_name: "main".to_string(), pass: p, func_idx: 2, pass_idx: 5 };
    let d = build(&sel, None, Heat::Total).ok().unwrap();
    assert_eq!(d.blocks.len(), 2);
    assert_eq!(d.graph.len(), 2);
    assert_eq!(text_of(&d.title), "main — GVN");
    let meta = d.meta.as_ref().unwrap();
    assert_eq!(meta.tag, "ionize");
    assert_eq!(meta.attrs.len(), 3);
    assert_eq!(meta.fields[1].name, "pass");
    assert_eq!(d.blocks[1].attrs.len(), 3);
    assert_eq!(d.blocks[0].attrs.len(), 2);
    assert!(d.css.starts_with(".mir.movable"));

    let bad = pass("p", vec![mir_block(0, 0, &[], &[], &[])], vec![]);
    let sel = Sel { func_name: "f".to_string(), pass: bad, func_idx: 0, pass_idx: 0 };
    assert_eq!(msg(build(&sel, None, Heat::Total).err().unwrap()), "MIR block 0 has a null ptr");
}
