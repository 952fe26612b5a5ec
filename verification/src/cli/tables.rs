//! The tables and blocks drawn for a pass's MIR and LIR blocks.

use vstd::prelude::*;
use vstd::string::StringExecFns;

use crate::cli::args::Heat;
use crate::cli::data::{counts_of, Counts, LirBlock, LirIns, MirBlock, MirIns, Samples, Sel};
use crate::cli::err::CliErr;
use crate::cli::draw::{
    block_title, blocks_error, build_graph, built_node, each_piece, edge_error, has, has_attr,
    keys_ordered, lemma_u64_keys, mir_class, mir_class_of, pieces_of, pretty, pretty_text, title,
};
use crate::draw::model::{
    runs_held, Align, Attr, Block, Cell, Col, Diagram, Field, Label, Meta, Row, Run, Table, Text,
    Value, CELL_PAD, CELL_PAD_Y, FONT_SIZE,
    SMALL_PAD, SMALL_PAD_Y, SMALL_SIZE,
};
use crate::opts::{magnitude, unsigned};
use crate::text::normalized;

verus! {

/// Bit pattern of the padding around a use reference, a quarter of the
/// font size.
pub const USE_PAD: u64 = 0x400c000000000000;

/// The sample count that drives the heatmap.
pub open spec fn sample_of(c: Counts, heat: Heat) -> u64 {
    match heat {
        Heat::Total => c.total,
        Heat::SelfCount => c.self_count,
    }
}

/// Returns the sample count that drives the heatmap.
pub fn sample(counts: Counts, heat: Heat) -> (v: u64)
    ensures
        v == sample_of(counts, heat),
{
    match heat {
        Heat::Total => counts.total,
        Heat::SelfCount => counts.self_count,
    }
}

/// Whether `t` is the string `v`.
pub open spec fn str_is(t: Text, v: Seq<char>) -> bool {
    t.0 matches Value::Str(s) && s@ == v
}

/// Whether the bit pattern is a zero of either sign.
pub open spec fn is_zero(b: u64) -> bool {
    magnitude(b) == 0
}

/// Whether `c` is one unstyled, unpadded run of `text`, with class `class`
/// and alignment `align`.
pub open spec fn text_cell(c: Cell, text: Text, class: Seq<char>, align: Align) -> bool {
    let runs = runs_held(c.runs);
    &&& runs.len() == 1
    &&& runs[0].text == text
    &&& runs[0].class@.len() == 0
    &&& runs[0].pad == 0
    &&& runs[0].width == 0
    &&& c.class@ == class
    &&& c.align == align
    &&& c.width == 0
}

/// Whether `c` is one unstyled, unpadded run of the string `s` (with
/// characters XML cannot represent replaced), with class `class` and
/// alignment `align`.
pub open spec fn str_cell(c: Cell, s: Seq<char>, class: Seq<char>, align: Align) -> bool {
    let runs = runs_held(c.runs);
    &&& runs.len() == 1
    &&& str_is(runs[0].text, normalized(s))
    &&& runs[0].class@.len() == 0
    &&& runs[0].pad == 0
    &&& runs[0].width == 0
    &&& c.class@ == class
    &&& c.align == align
    &&& c.width == 0
}

/// Whether `c` has no runs and default style.
pub open spec fn empty_cell(c: Cell) -> bool {
    &&& runs_held(c.runs).len() == 0
    &&& c.class@.len() == 0
    &&& c.align == Align::Start
    &&& c.width == 0
}

/// The cell of a sample count: dimmed when the count is zero.
pub fn sample_cell(count: u64) -> (c: Cell)
    ensures
        text_cell(
            c,
            Text(Value::Num(count)),
            if is_zero(count) {
                "sample dim"@
            } else {
                "sample"@
            },
            Align::End,
        ),
{
    let class = if unsigned(count) == 0 {
        String::from_str("sample dim")
    } else {
        String::from_str("sample")
    };
    Cell::new(Text::num(count)).class(class).align(Align::End)
}

/// Whether `c` shows the opcode `op`: its text as shown, split into plain
/// runs (class `opcode`) and padded use references (class `use`).
pub open spec fn opcode_runs(c: Cell, op: Seq<char>) -> bool {
    let t = pretty_text(op);
    let ps = pieces_of(t);
    let runs = runs_held(c.runs);
    &&& runs.len() == ps.len()
    &&& forall|i: int|
        0 <= i < runs.len() ==> {
            let (a, b, u) = #[trigger] ps[i];
            &&& str_is(runs[i].text, normalized(t.subrange(a, b)))
            &&& runs[i].class@ == if u {
                "use"@
            } else {
                "opcode"@
            }
            &&& runs[i].pad == if u {
                USE_PAD
            } else {
                0
            }
            &&& runs[i].width == 0
        }
    &&& c.class@.len() == 0
    &&& c.align == Align::Start
    &&& c.width == 0
}

/// The cell of a MIR opcode.
pub fn opcode_cell(opcode: &str) -> (c: Cell)
    ensures
        opcode_runs(c, opcode@),
{
    let text = pretty(opcode);
    let pieces = each_piece(text.as_str());
    let ghost t = text@;
    let ghost ps = pieces_of(t);
    let mut cell = Cell::empty();
    let mut i: usize = 0;
    while i < pieces.len()
        invariant
            i <= pieces@.len(),
            t == pretty_text(opcode@),
            ps == pieces_of(t),
            pieces@.len() == ps.len(),
            forall|k: int|
                0 <= k < pieces@.len() ==> {
                    let (a, b, u) = #[trigger] ps[k];
                    &&& 0 <= a <= b <= t.len()
                    &&& pieces@[k].text@ == t.subrange(a, b)
                    &&& pieces@[k].use_ref == u
                },
            runs_held(cell.runs).len() == i,
            forall|k: int|
                0 <= k < i ==> {
                    let (a, b, u) = #[trigger] ps[k];
                    let r = runs_held(cell.runs)[k];
                    &&& str_is(r.text, normalized(t.subrange(a, b)))
                    &&& r.class@ == if u {
                        "use"@
                    } else {
                        "opcode"@
                    }
                    &&& r.pad == if u {
                        USE_PAD
                    } else {
                        0
                    }
                    &&& r.width == 0
                },
            cell.class@.len() == 0,
            cell.align == Align::Start,
            cell.width == 0,
        decreases pieces@.len() - i,
    {
        let piece = &pieces[i];
        let run = if piece.use_ref {
            Run::new(Text::new(piece.text.as_str())).class(String::from_str("use")).pad(USE_PAD)
        } else {
            Run::new(Text::new(piece.text.as_str())).class(String::from_str("opcode"))
        };
        let ghost added = run;
        proof {
            let (a, b, u) = ps[i as int];
            assert(pieces@[i as int].text@ == t.subrange(a, b));
            assert(pieces@[i as int].use_ref == u);
            assert(str_is(added.text, normalized(t.subrange(a, b))));
            assert(added.class@ == if u { "use"@ } else { "opcode"@ });
            assert(added.pad == if u { USE_PAD } else { 0 });
            assert(added.width == 0);
        }
        cell.push(run);
        proof {
            assert(runs_held(cell.runs)[i as int] == added);
        }
        i = i + 1;
    }
    assert(opcode_runs(cell, opcode@));
    cell
}

/// Bit pattern of 1.
pub const ONE: u64 = 0x3ff0000000000000;

/// Whether `a` is the attribute `name` with the integer value `v`.
pub open spec fn int_attr(a: Attr, name: Seq<char>, v: u64) -> bool {
    a.name@ == name && a.value == Text(Value::Int(v))
}

/// An attribute `name` with the integer value `v`.
fn int_attr_new(name: &str, v: u64) -> (a: Attr)
    ensures
        int_attr(a, name@, v),
{
    Attr::new(String::from_str(name), Text::integer(v))
}

/// Whether `r` is the row of MIR instruction `ins`: its number, its opcode
/// and its type (empty for `None`), classed by its attributes.
pub open spec fn mir_row(r: Row, ins: MirIns) -> bool {
    let c = r.cells@;
    &&& c.len() == 3
    &&& text_cell(c[0], Text(Value::Int(ins.id)), "num"@, Align::End)
    &&& opcode_runs(c[1], ins.opcode@)
    &&& if ins.ty@ == "None"@ {
        empty_cell(c[2])
    } else {
        str_cell(c[2], ins.ty@, "type"@, Align::End)
    }
    &&& r.class@ == mir_class_of(ins.attributes@)
    &&& r.attrs@.len() == 2
    &&& int_attr(r.attrs@[0], "data-ins-ptr"@, ins.ptr)
    &&& int_attr(r.attrs@[1], "data-ins-id"@, ins.id)
    &&& r.heat is None
    &&& r.size == FONT_SIZE
    &&& r.pad_y == CELL_PAD_Y
    &&& r.height == 0
}

/// Whether `t` is the table of MIR block `b`: number, opcode and type
/// columns, and one row per instruction.
pub open spec fn mir_table_of(t: Table, b: MirBlock) -> bool {
    &&& t.cols@ == seq![
        Col { size: FONT_SIZE, pad: CELL_PAD, min: ONE, width: 0 },
        Col { size: FONT_SIZE, pad: CELL_PAD, min: 0, width: 0 },
        Col { size: FONT_SIZE, pad: CELL_PAD, min: ONE, width: 0 },
    ]
    &&& t.head is None
    &&& t.width == 0
    &&& t.rows@.len() == b.instructions@.len()
    &&& forall|i: int| 0 <= i < t.rows@.len() ==> mir_row(#[trigger] t.rows@[i], b.instructions@[i])
}

/// The table of a MIR block.
pub fn mir_table(block: &MirBlock) -> (t: Table)
    ensures
        mir_table_of(t, *block),
{
    let mut cols: Vec<Col> = Vec::new();
    cols.push(Col::normal(ONE));
    cols.push(Col::normal(0));
    cols.push(Col::normal(ONE));
    let mut table = Table::new(cols);
    let none = String::from_str("None");
    let mut i: usize = 0;
    while i < block.instructions.len()
        invariant
            i <= block.instructions@.len(),
            none@ == "None"@,
            table.cols@ == seq![
                Col { size: FONT_SIZE, pad: CELL_PAD, min: ONE, width: 0 },
                Col { size: FONT_SIZE, pad: CELL_PAD, min: 0, width: 0 },
                Col { size: FONT_SIZE, pad: CELL_PAD, min: ONE, width: 0 },
            ],
            table.head is None,
            table.width == 0,
            table.rows@.len() == i,
            forall|k: int| 0 <= k < i ==> mir_row(#[trigger] table.rows@[k], block.instructions@[k]),
        decreases block.instructions@.len() - i,
    {
        let ins = &block.instructions[i];
        let ty = if ins.ty == none {
            Cell::empty()
        } else {
            Cell::new(Text::new(ins.ty.as_str())).class(String::from_str("type")).align(
                Align::End,
            )
        };
        let mut cells: Vec<Cell> = Vec::new();
        cells.push(
            Cell::new(Text::integer(ins.id)).class(String::from_str("num")).align(Align::End),
        );
        cells.push(opcode_cell(ins.opcode.as_str()));
        cells.push(ty);
        let row = Row::new(cells).class(mir_class(&ins.attributes)).attr(
            int_attr_new("data-ins-ptr", ins.ptr),
        ).attr(int_attr_new("data-ins-id", ins.id));
        table.push(row);
        i = i + 1;
    }
    table
}

/// Whether `r` is the row of LIR instruction `ins`: its number and its
/// opcode as shown, then, with sample counts, its total and self counts;
/// its heat is then the sample count that `heat` picks.
pub open spec fn lir_row(r: Row, ins: LirIns, counts: Option<Counts>, heat: Heat) -> bool {
    let c = r.cells@;
    &&& c.len() == if counts is Some {
        4int
    } else {
        2int
    }
    &&& text_cell(c[0], Text(Value::Int(ins.id)), "num"@, Align::End)
    &&& str_cell(c[1], pretty_text(ins.opcode@), "opcode"@, Align::Start)
    &&& counts matches Some(k) ==> sample_cells(c[2], c[3], k)
    &&& r.class@ == "lir"@
    &&& r.attrs@.len() == if ins.mir_ptr is Some {
        3int
    } else {
        2int
    }
    &&& int_attr(r.attrs@[0], "data-ins-ptr"@, ins.ptr)
    &&& int_attr(r.attrs@[1], "data-ins-id"@, ins.id)
    &&& ins.mir_ptr matches Some(p) ==> int_attr(r.attrs@[2], "data-mir-ptr"@, p)
    &&& r.heat == match counts {
        Some(k) => Some(sample_of(k, heat)),
        None => None,
    }
    &&& r.size == FONT_SIZE
    &&& r.pad_y == CELL_PAD_Y
    &&& r.height == 0
}

/// Whether the two cells show the total and self counts.
pub open spec fn sample_cells(total: Cell, own: Cell, k: Counts) -> bool {
    &&& text_cell(
        total,
        Text(Value::Num(k.total)),
        if is_zero(k.total) {
            "sample dim"@
        } else {
            "sample"@
        },
        Align::End,
    )
    &&& text_cell(
        own,
        Text(Value::Num(k.self_count)),
        if is_zero(k.self_count) {
            "sample dim"@
        } else {
            "sample"@
        },
        Align::End,
    )
}

/// Whether `h` is the header row over the sample columns.
pub open spec fn sample_head(h: Row) -> bool {
    let c = h.cells@;
    &&& c.len() == 4
    &&& empty_cell(c[0])
    &&& empty_cell(c[1])
    &&& str_cell(c[2], "Total"@, "sample-head"@, Align::Middle)
    &&& str_cell(c[3], "Self"@, "sample-head"@, Align::Middle)
    &&& h.class@.len() == 0
    &&& h.attrs@.len() == 0
    &&& h.heat is None
    &&& h.size == SMALL_SIZE
    &&& h.pad_y == SMALL_PAD_Y
    &&& h.height == 0
}

/// The counts of instruction `id`, if there are samples.
pub open spec fn counts_in(samples: Option<&Samples>, id: u64) -> Option<Counts> {
    match samples {
        Some(s) => Some(counts_of(s.counts@, id)),
        None => None,
    }
}

/// Whether `t` is the table of LIR block `b`: number and opcode columns,
/// then, with samples, small total and self columns under a header row;
/// one row per instruction.
pub open spec fn lir_table_of(t: Table, b: LirBlock, samples: Option<&Samples>, heat: Heat) -> bool {
    &&& t.cols@ == if samples is Some {
        seq![
            Col { size: FONT_SIZE, pad: CELL_PAD, min: ONE, width: 0 },
            Col { size: FONT_SIZE, pad: CELL_PAD, min: 0, width: 0 },
            Col { size: SMALL_SIZE, pad: SMALL_PAD, min: 0, width: 0 },
            Col { size: SMALL_SIZE, pad: SMALL_PAD, min: 0, width: 0 },
        ]
    } else {
        seq![
            Col { size: FONT_SIZE, pad: CELL_PAD, min: ONE, width: 0 },
            Col { size: FONT_SIZE, pad: CELL_PAD, min: 0, width: 0 },
        ]
    }
    &&& if samples is Some {
        t.head matches Some(h) && sample_head(h)
    } else {
        t.head is None
    }
    &&& t.width == 0
    &&& t.rows@.len() == b.instructions@.len()
    &&& forall|i: int|
        0 <= i < t.rows@.len() ==> lir_row(
            #[trigger] t.rows@[i],
            b.instructions@[i],
            counts_in(samples, b.instructions@[i].id),
            heat,
        )
}

/// The table of a LIR block, with sample columns when there are samples.
/// Each row's heat is the instruction's sample count, to be scaled by the
/// largest count before drawing.
pub fn lir_table(block: &LirBlock, samples: Option<&Samples>, heat: Heat) -> (t: Table)
    ensures
        lir_table_of(t, *block, samples, heat),
{
    let mut cols: Vec<Col> = Vec::new();
    cols.push(Col::normal(ONE));
    cols.push(Col::normal(0));
    if samples.is_some() {
        cols.push(Col::small(0));
        cols.push(Col::small(0));
    }
    let ghost want_cols = cols@;
    let mut table = Table::new(cols);
    if samples.is_some() {
        let mut cells: Vec<Cell> = Vec::new();
        cells.push(Cell::empty());
        cells.push(Cell::empty());
        cells.push(
            Cell::new(Text::new("Total")).class(String::from_str("sample-head")).align(
                Align::Middle,
            ),
        );
        cells.push(
            Cell::new(Text::new("Self")).class(String::from_str("sample-head")).align(
                Align::Middle,
            ),
        );
        table.set_head(Row::small(cells));
    }
    let mut i: usize = 0;
    while i < block.instructions.len()
        invariant
            i <= block.instructions@.len(),
            table.cols@ == want_cols,
            want_cols == if samples is Some {
                seq![
                    Col { size: FONT_SIZE, pad: CELL_PAD, min: ONE, width: 0 },
                    Col { size: FONT_SIZE, pad: CELL_PAD, min: 0, width: 0 },
                    Col { size: SMALL_SIZE, pad: SMALL_PAD, min: 0, width: 0 },
                    Col { size: SMALL_SIZE, pad: SMALL_PAD, min: 0, width: 0 },
                ]
            } else {
                seq![
                    Col { size: FONT_SIZE, pad: CELL_PAD, min: ONE, width: 0 },
                    Col { size: FONT_SIZE, pad: CELL_PAD, min: 0, width: 0 },
                ]
            },
            if samples is Some {
                table.head matches Some(h) && sample_head(h)
            } else {
                table.head is None
            },
            table.width == 0,
            table.rows@.len() == i,
            forall|k: int|
                0 <= k < i ==> lir_row(
                    #[trigger] table.rows@[k],
                    block.instructions@[k],
                    counts_in(samples, block.instructions@[k].id),
                    heat,
                ),
        decreases block.instructions@.len() - i,
    {
        let ins = &block.instructions[i];
        let counts = match samples {
            Some(s) => Some(s.get(ins.id)),
            None => None,
        };
        let mut cells: Vec<Cell> = Vec::new();
        cells.push(
            Cell::new(Text::integer(ins.id)).class(String::from_str("num")).align(Align::End),
        );
        let shown = pretty(ins.opcode.as_str());
        cells.push(Cell::new(Text::new(shown.as_str())).class(String::from_str("opcode")));
        match counts {
            Some(k) => {
                cells.push(sample_cell(k.total));
                cells.push(sample_cell(k.self_count));
            },
            None => {},
        }
        let mut row = Row::new(cells).class(String::from_str("lir")).attr(
            int_attr_new("data-ins-ptr", ins.ptr),
        ).attr(int_attr_new("data-ins-id", ins.id));
        match ins.mir_ptr {
            Some(p) => {
                row = row.attr(int_attr_new("data-mir-ptr", p));
            },
            None => {},
        }
        match counts {
            Some(k) => {
                row = row.heat(sample(k, heat));
            },
            None => {},
        }
        table.push(row);
        i = i + 1;
    }
    table
}

/// Bit pattern of 20, the offset of the taken-branch label.
pub const TAKEN_X: u64 = 0x4034000000000000;

/// Bit pattern of 80, the offset of the fallthrough label.
pub const FALLTHROUGH_X: u64 = 0x4054000000000000;

/// Whether `l` is a label at the offset with bit pattern `x` reading `v`.
pub open spec fn label_is(l: Label, x: u64, v: Seq<char>) -> bool {
    l.x == x && str_is(l.text, normalized(v))
}

/// Whether `bk` is the block drawn for MIR block `mir` with LIR block
/// `lir`: titled by the block, with the LIR table if there is a LIR block
/// and the MIR table otherwise; `loop` for loop headers, a `split` body for
/// split edges, its addresses and number as attributes, and `1` and `0`
/// labels under a two-way branch.
pub open spec fn block_of(
    bk: Block,
    mir: MirBlock,
    lir: Option<LirBlock>,
    samples: Option<&Samples>,
    heat: Heat,
) -> bool {
    let a = mir.attributes@;
    &&& str_is(bk.title, normalized(block_title(mir)))
    &&& match lir {
        Some(l) => lir_table_of(bk.table, l, samples, heat),
        None => mir_table_of(bk.table, mir),
    }
    &&& if has_attr(a, "loopheader"@) {
        bk.class@ == "loop"@
    } else {
        bk.class@.len() == 0
    }
    &&& if has_attr(a, "splitedge"@) {
        bk.body_class@ == "split"@
    } else {
        bk.body_class@.len() == 0
    }
    &&& bk.attrs@.len() == if lir is Some {
        3int
    } else {
        2int
    }
    &&& int_attr(bk.attrs@[0], "data-block-ptr"@, mir.ptr)
    &&& int_attr(bk.attrs@[1], "data-block-id"@, mir.id)
    &&& lir matches Some(l) ==> int_attr(bk.attrs@[2], "data-lir-block-ptr"@, l.ptr)
    &&& if mir.successors@.len() == 2 {
        &&& bk.labels@.len() == 2
        &&& label_is(bk.labels@[0], TAKEN_X, "1"@)
        &&& label_is(bk.labels@[1], FALLTHROUGH_X, "0"@)
    } else {
        bk.labels@.len() == 0
    }
}

/// The block drawn for a MIR block and, if it has one, its LIR block.
pub fn block(mir: &MirBlock, lir: Option<&LirBlock>, samples: Option<&Samples>, heat: Heat) -> (bk:
    Block)
    ensures
        block_of(
            bk,
            *mir,
            match lir {
                Some(l) => Some(*l),
                None => None,
            },
            samples,
            heat,
        ),
{
    let table = match lir {
        Some(l) => lir_table(l, samples, heat),
        None => mir_table(mir),
    };
    let name = title(mir);
    let mut bk = Block::new(Text::new(name.as_str()), table).attr(
        int_attr_new("data-block-ptr", mir.ptr),
    ).attr(int_attr_new("data-block-id", mir.id));
    if has(&mir.attributes, "loopheader") {
        bk = bk.class(String::from_str("loop"));
    }
    if has(&mir.attributes, "splitedge") {
        bk = bk.body_class(String::from_str("split"));
    }
    match lir {
        Some(l) => {
            bk = bk.attr(int_attr_new("data-lir-block-ptr", l.ptr));
        },
        None => {},
    }
    if mir.successors.len() == 2 {
        bk = bk.label(Label::new(TAKEN_X, Text::new("1"))).label(
            Label::new(FALLTHROUGH_X, Text::new("0")),
        );
    }
    bk
}

/// CSS for MIR instruction classes: movable, guard, recovered-on-bailout
/// and worklist instructions.
pub const STYLE: &'static str = ".mir.movable text{fill:#1048af}
.mir.guard text{text-decoration:underline}
.mir.recovered text{fill:red;text-decoration-style:wavy;text-decoration-line:line-through}
.mir.worklist text{fill:red}
";

/// The LIR block numbered `id`, if there is one.
pub open spec fn lir_of(l: Seq<LirBlock>, id: u64) -> Option<LirBlock> {
    if exists|k: int| 0 <= k < l.len() && #[trigger] l[k].id == id {
        Some(l[choose|k: int| 0 <= k < l.len() && #[trigger] l[k].id == id])
    } else {
        None
    }
}

/// Whether `me` is the metadata element of the chosen function and pass:
/// `ionize` with the format version and the two indices, and the two names
/// as fields.
pub open spec fn meta_of(me: Meta, sel: Sel) -> bool {
    &&& me.tag@ == "ionize"@
    &&& me.attrs@.len() == 3
    &&& int_attr(me.attrs@[0], "version"@, 1)
    &&& int_attr(me.attrs@[1], "function-index"@, sel.func_idx as u64)
    &&& int_attr(me.attrs@[2], "pass-index"@, sel.pass_idx as u64)
    &&& me.fields@.len() == 2
    &&& me.fields@[0].name@ == "function"@
    &&& str_is(me.fields@[0].value, normalized(sel.func_name@))
    &&& me.fields@[1].name@ == "pass"@
    &&& str_is(me.fields@[1].value, normalized(sel.pass.name@))
}

/// Whether `d` is the diagram of the chosen pass: the layout graph of its
/// MIR blocks, the block drawn for each, the function and pass names as
/// title and metadata, and the instruction-class CSS.
pub open spec fn diagram_of(d: Diagram, sel: Sel, samples: Option<&Samples>, heat: Heat) -> bool {
    let m = sel.pass.mir.blocks@;
    let l = sel.pass.lir.blocks@;
    &&& d.graph@.len() == m.len()
    &&& forall|k: int| 0 <= k < m.len() ==> built_node(m, k, #[trigger] d.graph@[k])
    &&& d.blocks@.len() == m.len()
    &&& forall|k: int|
        0 <= k < m.len() ==> block_of(#[trigger] d.blocks@[k], m[k], lir_of(l, m[k].id), samples, heat)
    &&& str_is(d.title, normalized(sel.func_name@ + " — "@ + sel.pass.name@))
    &&& d.meta matches Some(me) && meta_of(me, sel)
    &&& d.css@ == STYLE@
}

/// Builds the diagram of the chosen pass: its MIR blocks as a layout graph,
/// each drawn with its LIR table when it has a LIR block.
pub fn build(sel: &Sel, samples: Option<&Samples>, heat: Heat) -> (r: Result<Diagram, CliErr>)
    ensures
        match blocks_error(sel.pass) {
            Some(m) => r matches Err(e) && e@ == m,
            None => match edge_error(sel.pass.mir.blocks@) {
                Some(m) => r matches Err(e) && e@ == m,
                None => r matches Ok(d) && diagram_of(d, *sel, samples, heat),
            },
        },
{
    proof {
        lemma_u64_keys();
    }
    let pass = &sel.pass;
    let (graph, lir) = match build_graph(pass) {
        Ok(built) => built,
        Err(e) => {
            return Err(e);
        },
    };
    let ghost m = pass.mir.blocks@;
    let ghost l = pass.lir.blocks@;
    proof {
        assert forall|a: int, b: int|
            0 <= a < l.len() && 0 <= b < l.len() && l[a].id == l[b].id implies a == b by {
            assert(lir@[l[a].id] == a && lir@[l[b].id] == b);
        }
    }
    let mut blocks: Vec<Block> = Vec::new();
    let mut k: usize = 0;
    while k < pass.mir.blocks.len()
        invariant
            k <= m.len(),
            m == pass.mir.blocks@,
            l == pass.lir.blocks@,
            keys_ordered(),
            forall|j: int| 0 <= j < l.len() ==> lir@.contains_key(#[trigger] l[j].id) && lir@[l[j].id] == j,
            forall|x: u64| #[trigger] lir@.contains_key(x) ==> exists|j: int|
                0 <= j < l.len() && l[j].id == x,
            forall|a: int, b: int|
                0 <= a < l.len() && 0 <= b < l.len() && l[a].id == l[b].id ==> a == b,
            blocks@.len() == k,
            forall|j: int|
                0 <= j < k ==> block_of(#[trigger] blocks@[j], m[j], lir_of(l, m[j].id), samples, heat),
        decreases m.len() - k,
    {
        let mb = &pass.mir.blocks[k];
        let lb = match lir.get(&mb.id) {
            Some(i) => {
                proof {
                    assert(l[*i as int].id == mb.id);
                    let c = choose|c: int| 0 <= c < l.len() && #[trigger] l[c].id == mb.id;
                    assert(c == *i);
                }
                Some(&pass.lir.blocks[*i])
            },
            None => {
                proof {
                    assert(!exists|j: int| 0 <= j < l.len() && #[trigger] l[j].id == mb.id);
                }
                None
            },
        };
        blocks.push(block(mb, lb, samples, heat));
        k = k + 1;
    }
    let mut name = sel.func_name.clone();
    name.append(" — ");
    name.append(pass.name.as_str());
    let meta = Meta::new(String::from_str("ionize")).attr(int_attr_new("version", 1)).attr(
        int_attr_new("function-index", sel.func_idx as u64),
    ).attr(int_attr_new("pass-index", sel.pass_idx as u64)).field(
        Field::new(String::from_str("function"), Text::new(sel.func_name.as_str())),
    ).field(Field::new(String::from_str("pass"), Text::new(pass.name.as_str())));
    match Diagram::new(graph, blocks) {
        Ok(d) => Ok(d.title(Text::new(name.as_str())).meta(meta).css(String::from_str(STYLE))),
        Err(_) => {
            proof {
                assert(false);
            }
            Err(CliErr::new(String::new()))
        },
    }
}

/// Under a block that ends in a two-way branch the first label sits at
/// offset 20 and reads `1` (the taken branch, the first successor) and the
/// second sits at offset 80 and reads `0` (the fallthrough); a block with
/// any other number of successors has no labels.
pub proof fn lemma_branch_labels(
    bk: Block,
    mir: MirBlock,
    lir: Option<LirBlock>,
    samples: Option<&Samples>,
    heat: Heat,
)
    requires
        block_of(bk, mir, lir, samples, heat),
    ensures
        mir.successors@.len() != 2 ==> bk.labels@.len() == 0,
        mir.successors@.len() == 2 ==> {
            &&& bk.labels@.len() == 2
            &&& bk.labels@[0].x == 0x4034000000000000u64
            &&& bk.labels@[0].text.0 matches Value::Str(s) && s@ == seq!['1']
            &&& bk.labels@[1].x == 0x4054000000000000u64
            &&& bk.labels@[1].text.0 matches Value::Str(s) && s@ == seq!['0']
        },
{
    reveal_strlit("1");
    reveal_strlit("0");
    assert(normalized("1"@) =~= seq!['1']);
    assert(normalized("0"@) =~= seq!['0']);
}

/// With samples, the LIR table's header row reads `Total` over the third
/// column and `Self` over the fourth, and every row shows its instruction's
/// total count in the third cell and its self count in the fourth (zero for
/// an instruction without samples).
pub proof fn lemma_sample_columns(t: Table, b: LirBlock, samples: &Samples, heat: Heat)
    requires
        lir_table_of(t, b, Some(samples), heat),
    ensures
        t.head matches Some(h) && {
            &&& h.cells@.len() == 4
            &&& runs_held(h.cells@[2].runs).len() == 1
            &&& runs_held(h.cells@[2].runs)[0].text.0 matches Value::Str(s) && s@ == seq!['T', 'o', 't', 'a', 'l']
            &&& runs_held(h.cells@[3].runs).len() == 1
            &&& runs_held(h.cells@[3].runs)[0].text.0 matches Value::Str(s) && s@ == seq!['S', 'e', 'l', 'f']
        },
        t.rows@.len() == b.instructions@.len(),
        forall|i: int|
            0 <= i < t.rows@.len() ==> {
                let id = b.instructions@[i].id;
                let c = (#[trigger] t.rows@[i]).cells@;
                &&& c.len() == 4
                &&& runs_held(c[2].runs).len() == 1
                &&& runs_held(c[3].runs).len() == 1
                &&& samples.counts@.contains_key(id) ==> runs_held(c[2].runs)[0].text == Text(
                    Value::Num(samples.counts@[id].total),
                ) && runs_held(c[3].runs)[0].text == Text(Value::Num(samples.counts@[id].self_count))
                &&& !samples.counts@.contains_key(id) ==> runs_held(c[2].runs)[0].text == Text(Value::Num(0))
                    && runs_held(c[3].runs)[0].text == Text(Value::Num(0))
            },
{
    reveal_strlit("Total");
    reveal_strlit("Self");
    assert(normalized("Total"@) =~= seq!['T', 'o', 't', 'a', 'l']);
    assert(normalized("Self"@) =~= seq!['S', 'e', 'l', 'f']);
    assert forall|i: int| 0 <= i < t.rows@.len() implies {
        let id = b.instructions@[i].id;
        let c = (#[trigger] t.rows@[i]).cells@;
        &&& c.len() == 4
        &&& runs_held(c[2].runs).len() == 1
        &&& runs_held(c[3].runs).len() == 1
        &&& samples.counts@.contains_key(id) ==> runs_held(c[2].runs)[0].text == Text(
            Value::Num(samples.counts@[id].total),
        ) && runs_held(c[3].runs)[0].text == Text(Value::Num(samples.counts@[id].self_count))
        &&& !samples.counts@.contains_key(id) ==> runs_held(c[2].runs)[0].text == Text(Value::Num(0))
            && runs_held(c[3].runs)[0].text == Text(Value::Num(0))
    } by {
        assert(lir_row(t.rows@[i], b.instructions@[i], counts_in(Some(samples), b.instructions@[i].id), heat));
    }
}

} // verus!
