//! What a diagram holds: the text, tables and blocks drawn for each graph
//! node. Each floating-point quantity is held as the bit pattern of its
//! `f64` value.

use smallvec::SmallVec;
use vstd::prelude::*;
use vstd::string::StringExecFns;

use crate::draw::err::DrawErr;
use crate::graph::Graph;
use crate::text::{decimal, push_decimal};

use crate::text::{normalized, push_char, xml_allowed};

verus! {

/// Horizontal text alignment within a table column.
#[derive(Clone, Copy, Debug, PartialEq, Eq, Structural)]
pub enum Align {
    /// Align to the leading padded column edge.
    Start,
    /// Align to the trailing padded column edge.
    End,
    /// Center within the column.
    Middle,
}

impl Default for Align {
    fn default() -> (a: Align)
        ensures
            a == Align::Start,
    {
        Align::Start
    }
}

/// Returns whether XML can represent `ch`.
pub fn xml_char(ch: char) -> (r: bool)
    ensures
        r == xml_allowed(ch),
{
    let u = ch as u32;
    u == 0x9 || u == 0xA || u == 0xD || (0x20 <= u && u <= 0xD7FF) || (0xE000 <= u && u
        <= 0xFFFD) || (0x10000 <= u && u <= 0x10FFFF)
}

/// Copies `value`, replacing each character XML cannot represent with
/// U+FFFD.
pub fn normalize(value: &str) -> (r: String)
    ensures
        r@ == normalized(value@),
{
    let mut out = String::new();
    let ghost whole = value@;
    for c in it: value.chars()
        invariant
            it.seq() == whole,
            out@ == normalized(whole.take(it.index() as int)),
    {
        let r = if xml_char(c) {
            c
        } else {
            '\u{FFFD}'
        };
        push_char(&mut out, r);
        assert(normalized(whole.take(it.index() as int + 1)) =~= out@);
    }
    assert(whole.take(whole.len() as int) =~= whole);
    out
}

/// Bit pattern of the normal font size, 14.
pub const FONT_SIZE: u64 = 0x402c000000000000;

/// Bit pattern of the small font size, 12.25.
pub const SMALL_SIZE: u64 = 0x4028800000000000;

/// Bit pattern of the horizontal cell padding, 7.
pub const CELL_PAD: u64 = 0x401c000000000000;

/// Bit pattern of the horizontal small-cell padding, 6.125.
pub const SMALL_PAD: u64 = 0x4018800000000000;

/// Bit pattern of the vertical cell padding, a tenth of the font size.
pub const CELL_PAD_Y: u64 = 0x3ff6666666666667;

/// Bit pattern of the vertical small-cell padding, a tenth of the small
/// font size.
pub const SMALL_PAD_Y: u64 = 0x3ff399999999999a;

/// What a text holds.
#[derive(Clone, Debug)]
pub enum Value {
    /// A string.
    Str(String),
    /// An unsigned integer, written in decimal.
    Int(u64),
    /// The bit pattern of a floating-point number.
    Num(u64),
}

/// Text measured before it is written to SVG.
#[derive(Clone, Debug)]
pub struct Text(pub Value);

impl Text {
    /// A string, with each character XML cannot represent replaced by
    /// U+FFFD.
    pub fn new(value: &str) -> (t: Text)
        ensures
            t.0 matches Value::Str(s) && s@ == normalized(value@),
    {
        Text(Value::Str(normalize(value)))
    }

    /// An unsigned integer, formatted when it is written.
    pub fn integer(value: u64) -> (t: Text)
        ensures
            t.0 == Value::Int(value),
    {
        Text(Value::Int(value))
    }

    /// A floating-point number given by its bit pattern, formatted when it
    /// is written.
    pub fn num(value: u64) -> (t: Text)
        ensures
            t.0 == Value::Num(value),
    {
        Text(Value::Num(value))
    }

    /// Returns whether the text is the empty string.
    pub fn is_empty(&self) -> (b: bool)
        ensures
            b == (self.0 matches Value::Str(s) && s@.len() == 0),
    {
        match &self.0 {
            Value::Str(s) => s.as_str().is_empty(),
            _ => false,
        }
    }
}

impl From<u64> for Text {
    fn from(value: u64) -> (t: Text) {
        Text(Value::Int(value))
    }
}

impl vstd::std_specs::convert::FromSpecImpl<u64> for Text {
    open spec fn obeys_from_spec() -> bool {
        true
    }

    open spec fn from_spec(value: u64) -> Text {
        Text(Value::Int(value))
    }
}

/// An SVG attribute name and value.
#[derive(Clone, Debug)]
pub struct Attr {
    /// Attribute name; checked when the diagram is rendered.
    pub name: String,
    /// Attribute value.
    pub value: Text,
}

impl Attr {
    /// An attribute.
    pub fn new(name: String, value: Text) -> (a: Attr)
        ensures
            a.name == name,
            a.value == value,
    {
        Attr { name, value }
    }
}

/// A named value inside an SVG metadata element.
#[derive(Clone, Debug)]
pub struct Field {
    /// Field name; checked when the diagram is rendered.
    pub name: String,
    /// Field value.
    pub value: Text,
}

impl Field {
    /// A field.
    pub fn new(name: String, value: Text) -> (f: Field)
        ensures
            f.name == name,
            f.value == value,
    {
        Field { name, value }
    }
}

/// An element written inside SVG metadata.
#[derive(Clone, Debug)]
pub struct Meta {
    /// Element tag; checked when the diagram is rendered.
    pub tag: String,
    /// Attributes in SVG order.
    pub attrs: Vec<Attr>,
    /// Child fields in order.
    pub fields: Vec<Field>,
}

impl Meta {
    /// An element without attributes or fields.
    pub fn new(tag: String) -> (m: Meta)
        ensures
            m.tag == tag,
            m.attrs@.len() == 0,
            m.fields@.len() == 0,
    {
        Meta { tag, attrs: Vec::new(), fields: Vec::new() }
    }

    /// Adds an attribute at the end of the attribute list.
    pub fn attr(self, attr: Attr) -> (m: Meta)
        ensures
            m.tag == self.tag,
            m.attrs@ == self.attrs@.push(attr),
            m.fields@ == self.fields@,
    {
        let mut m = self;
        m.attrs.push(attr);
        m
    }

    /// Adds a child at the end of the element.
    pub fn field(self, field: Field) -> (m: Meta)
        ensures
            m.tag == self.tag,
            m.attrs@ == self.attrs@,
            m.fields@ == self.fields@.push(field),
    {
        let mut m = self;
        m.fields.push(field);
        m
    }
}

/// A piece of text with its own style and padding.
#[derive(Clone, Debug)]
pub struct Run {
    /// The text.
    pub text: Text,
    /// SVG class; empty for the cell's class.
    pub class: String,
    /// Bit pattern of the space before and after the text.
    pub pad: u64,
    /// Bit pattern of the measured width.
    pub width: u64,
}

impl Run {
    /// An unstyled run without padding.
    pub fn new(text: Text) -> (r: Run)
        ensures
            r.text == text,
            r.class@.len() == 0,
            r.pad == 0,
            r.width == 0,
    {
        Run { text, class: String::new(), pad: 0, width: 0 }
    }

    /// Sets the SVG class.
    pub fn class(self, class: String) -> (r: Run)
        ensures
            r == (Run { class, ..self }),
    {
        Run { class, ..self }
    }

    /// Sets the space before and after the text, by bit pattern.
    pub fn pad(self, pad: u64) -> (r: Run)
        ensures
            r == (Run { pad, ..self }),
    {
        Run { pad, ..self }
    }
}

/// The runs of a cell, held in a small vector that keeps one run inline.
#[verifier::external_body]
#[derive(Debug)]
pub struct Runs {
    held: SmallVec<[Run; 1]>,
}

/// The runs, in order.
pub uninterp spec fn runs_held(v: Runs) -> Seq<Run>;

impl Runs {
    /// No runs.
    ///
    /// Calls `SmallVec::new`, which makes a vector with no items.
    #[verifier::external_body]
    fn new() -> (v: Runs)
        ensures
            runs_held(v) == Seq::<Run>::empty(),
    {
        Runs { held: SmallVec::new() }
    }

    /// Appends a run.
    ///
    /// Calls `SmallVec::push`, which appends the item at the end. It panics
    /// only when growing a full vector overflows its capacity, which takes
    /// more than half of `usize::MAX` items (more than any memory holds), or
    /// when allocation fails; `requires` leaves out the full length.
    #[verifier::external_body]
    fn push(&mut self, run: Run)
        requires
            runs_held(*old(self)).len() < usize::MAX,
        ensures
            runs_held(*final(self)) == runs_held(*old(self)).push(run),
    {
        self.held.push(run);
    }

    /// The runs as a slice.
    ///
    /// Calls `SmallVec::as_slice`, which returns the items in order.
    #[verifier::external_body]
    fn held_slice(&self) -> (s: &[Run])
        ensures
            s@ == runs_held(*self),
    {
        self.held.as_slice()
    }

    /// The runs, in order.
    pub fn as_slice(&self) -> (s: &[Run])
        ensures
            s@ == runs_held(*self),
    {
        self.held_slice()
    }
}

/// A table cell made from text runs.
#[derive(Debug)]
pub struct Cell {
    /// Runs in order.
    pub runs: Runs,
    /// SVG class for runs without their own.
    pub class: String,
    /// Alignment in the column.
    pub align: Align,
    /// Bit pattern of the measured width.
    pub width: u64,
}

impl Cell {
    /// A cell with one unstyled run of `text`.
    pub fn new(text: Text) -> (c: Cell)
        ensures
            runs_held(c.runs).len() == 1,
            runs_held(c.runs)[0].text == text,
            runs_held(c.runs)[0].class@.len() == 0,
            runs_held(c.runs)[0].pad == 0,
            runs_held(c.runs)[0].width == 0,
            c.class@.len() == 0,
            c.align == Align::Start,
            c.width == 0,
    {
        let mut v: Vec<Run> = Vec::new();
        v.push(Run::new(text));
        Cell::runs(v)
    }

    /// A cell without runs.
    pub fn empty() -> (c: Cell)
        ensures
            runs_held(c.runs).len() == 0,
            c.class@.len() == 0,
            c.align == Align::Start,
            c.width == 0,
    {
        Cell::runs(Vec::new())
    }

    /// A cell with the runs in order.
    pub fn runs(runs: Vec<Run>) -> (c: Cell)
        ensures
            runs_held(c.runs) == runs@,
            c.class@.len() == 0,
            c.align == Align::Start,
            c.width == 0,
    {
        let mut held = Runs::new();
        let ghost all = runs@;
        let n = runs.len();
        for r in it: runs
            invariant
                it.seq() == all,
                all.len() == n,
                runs_held(held) == all.take(it.index() as int),
        {
            held.push(r);
            assert(runs_held(held) =~= all.take(it.index() as int + 1));
        }
        assert(all.take(all.len() as int) =~= all);
        Cell { runs: held, class: String::new(), align: Align::Start, width: 0 }
    }

    /// Appends a run.
    pub fn push(&mut self, run: Run)
        requires
            runs_held(old(self).runs).len() < usize::MAX,
        ensures
            runs_held(final(self).runs) == runs_held(old(self).runs).push(run),
            final(self).class == old(self).class,
            final(self).align == old(self).align,
            final(self).width == old(self).width,
    {
        self.runs.push(run);
    }

    /// Sets the SVG class for runs without their own.
    pub fn class(self, class: String) -> (c: Cell)
        ensures
            c == (Cell { class, ..self }),
    {
        Cell { class, ..self }
    }

    /// Sets the alignment.
    pub fn align(self, align: Align) -> (c: Cell)
        ensures
            c == (Cell { align, ..self }),
    {
        Cell { align, ..self }
    }
}

/// How a table column is measured; each quantity is a bit pattern.
#[derive(Clone, Copy, Debug, PartialEq, Eq, Structural)]
pub struct Col {
    /// Font size.
    pub size: u64,
    /// Horizontal padding.
    pub pad: u64,
    /// Minimum content width.
    pub min: u64,
    /// Measured width.
    pub width: u64,
}

impl Col {
    /// A normal-size column with minimum content width `min`.
    pub fn normal(min: u64) -> (c: Col)
        ensures
            c == (Col { size: FONT_SIZE, pad: CELL_PAD, min, width: 0 }),
    {
        Col { size: FONT_SIZE, pad: CELL_PAD, min, width: 0 }
    }

    /// A small-text column with minimum content width `min`.
    pub fn small(min: u64) -> (c: Col)
        ensures
            c == (Col { size: SMALL_SIZE, pad: SMALL_PAD, min, width: 0 }),
    {
        Col { size: SMALL_SIZE, pad: SMALL_PAD, min, width: 0 }
    }
}

/// A row of table cells.
#[derive(Debug)]
pub struct Row {
    /// Cells, one per column.
    pub cells: Vec<Cell>,
    /// SVG class.
    pub class: String,
    /// Attributes in SVG order.
    pub attrs: Vec<Attr>,
    /// Bit pattern of the heatmap intensity, from zero to one, if any.
    pub heat: Option<u64>,
    /// Bit pattern of the font size that sets the minimum line height.
    pub size: u64,
    /// Bit pattern of the vertical padding.
    pub pad_y: u64,
    /// Bit pattern of the measured height.
    pub height: u64,
}

impl Row {
    /// A row with the normal minimum line height.
    pub fn new(cells: Vec<Cell>) -> (r: Row)
        ensures
            r.cells@ == cells@,
            r.class@.len() == 0,
            r.attrs@.len() == 0,
            r.heat is None,
            r.size == FONT_SIZE,
            r.pad_y == CELL_PAD_Y,
            r.height == 0,
    {
        Row::with_size(cells, FONT_SIZE, CELL_PAD_Y)
    }

    /// A row with the compact minimum line height; a non-empty cell in a
    /// larger-font column expands it.
    pub fn small(cells: Vec<Cell>) -> (r: Row)
        ensures
            r.cells@ == cells@,
            r.class@.len() == 0,
            r.attrs@.len() == 0,
            r.heat is None,
            r.size == SMALL_SIZE,
            r.pad_y == SMALL_PAD_Y,
            r.height == 0,
    {
        Row::with_size(cells, SMALL_SIZE, SMALL_PAD_Y)
    }

    fn with_size(cells: Vec<Cell>, size: u64, pad_y: u64) -> (r: Row)
        ensures
            r.cells@ == cells@,
            r.class@.len() == 0,
            r.attrs@.len() == 0,
            r.heat is None,
            r.size == size,
            r.pad_y == pad_y,
            r.height == 0,
    {
        Row {
            cells,
            class: String::new(),
            attrs: Vec::new(),
            heat: None,
            size,
            pad_y,
            height: 0,
        }
    }

    /// Sets the SVG class.
    pub fn class(self, class: String) -> (r: Row)
        ensures
            r == (Row { class, ..self }),
    {
        Row { class, ..self }
    }

    /// Appends an attribute.
    pub fn attr(self, attr: Attr) -> (r: Row)
        ensures
            r.attrs@ == self.attrs@.push(attr),
            r == (Row { attrs: r.attrs, ..self }),
    {
        let mut r = self;
        r.attrs.push(attr);
        r
    }

    /// Sets the heatmap intensity, by bit pattern.
    pub fn heat(self, heat: u64) -> (r: Row)
        ensures
            r == (Row { heat: Some(heat), ..self }),
    {
        Row { heat: Some(heat), ..self }
    }
}

/// A fixed-column table drawn inside a block.
#[derive(Debug)]
pub struct Table {
    /// Column settings.
    pub cols: Vec<Col>,
    /// Header row, if any.
    pub head: Option<Row>,
    /// Body rows.
    pub rows: Vec<Row>,
    /// Bit pattern of the measured width.
    pub width: u64,
}

impl Table {
    /// A table with the columns and no rows.
    pub fn new(cols: Vec<Col>) -> (t: Table)
        ensures
            t.cols@ == cols@,
            t.head is None,
            t.rows@.len() == 0,
            t.width == 0,
    {
        Table { cols, head: None, rows: Vec::new(), width: 0 }
    }

    /// Sets the header row.
    pub fn set_head(&mut self, row: Row)
        ensures
            final(self).head == Some(row),
            final(self).cols == old(self).cols,
            final(self).rows == old(self).rows,
            final(self).width == old(self).width,
    {
        self.head = Some(row);
    }

    /// Appends a body row.
    pub fn push(&mut self, row: Row)
        ensures
            final(self).rows@ == old(self).rows@.push(row),
            final(self).head == old(self).head,
            final(self).cols == old(self).cols,
            final(self).width == old(self).width,
    {
        self.rows.push(row);
    }
}

/// Text placed below a block, at an offset from its left edge; it does not
/// take part in layout.
#[derive(Clone, Debug)]
pub struct Label {
    /// Bit pattern of the offset from the block's left edge.
    pub x: u64,
    /// The text.
    pub text: Text,
}

impl Label {
    /// A label at the offset given by its bit pattern.
    pub fn new(x: u64, text: Text) -> (l: Label)
        ensures
            l.x == x,
            l.text == text,
    {
        Label { x, text }
    }
}

/// Content drawn for one graph node.
#[derive(Debug)]
pub struct Block {
    /// Header text.
    pub title: Text,
    /// Additional SVG classes; `loop` colors the header green.
    pub class: String,
    /// Additional SVG classes on the body border; `split` dashes it.
    pub body_class: String,
    /// Attributes in SVG order.
    pub attrs: Vec<Attr>,
    /// The body table.
    pub table: Table,
    /// Labels below the block.
    pub labels: Vec<Label>,
}

impl Block {
    /// A block with the default header and body style.
    pub fn new(title: Text, table: Table) -> (b: Block)
        ensures
            b.title == title,
            b.table == table,
            b.class@.len() == 0,
            b.body_class@.len() == 0,
            b.attrs@.len() == 0,
            b.labels@.len() == 0,
    {
        Block {
            title,
            class: String::new(),
            body_class: String::new(),
            attrs: Vec::new(),
            table,
            labels: Vec::new(),
        }
    }

    /// Sets additional SVG classes.
    pub fn class(self, class: String) -> (b: Block)
        ensures
            b == (Block { class, ..self }),
    {
        Block { class, ..self }
    }

    /// Sets additional SVG classes on the body border.
    pub fn body_class(self, class: String) -> (b: Block)
        ensures
            b == (Block { body_class: class, ..self }),
    {
        Block { body_class: class, ..self }
    }

    /// Appends an attribute.
    pub fn attr(self, attr: Attr) -> (b: Block)
        ensures
            b.attrs@ == self.attrs@.push(attr),
            b == (Block { attrs: b.attrs, ..self }),
    {
        let mut b = self;
        b.attrs.push(attr);
        b
    }

    /// Appends a label.
    pub fn label(self, label: Label) -> (b: Block)
        ensures
            b.labels@ == self.labels@.push(label),
            b == (Block { labels: b.labels, ..self }),
    {
        let mut b = self;
        b.labels.push(label);
        b
    }
}

/// A graph and the content drawn for each node.
#[derive(Debug)]
pub struct Diagram {
    /// The graph; drawing sets node sizes from the measured blocks.
    pub graph: Graph,
    /// One block per node, at the node's index.
    pub blocks: Vec<Block>,
    /// Document title.
    pub title: Text,
    /// Metadata element, if any.
    pub meta: Option<Meta>,
    /// CSS placed between the built-in structural and state rules.
    pub css: String,
}

/// The message for a block count that differs from the node count.
pub open spec fn count_msg(nodes: nat, blocks: nat) -> Seq<char> {
    "graph has "@ + decimal(nodes) + " nodes but "@ + decimal(blocks) + " blocks were supplied"@
}

impl Diagram {
    /// Pairs each graph node with the block at the same index; the counts
    /// must agree.
    pub fn new(graph: Graph, blocks: Vec<Block>) -> (r: Result<Diagram, DrawErr>)
        ensures
            graph@.len() == blocks@.len() <==> r is Ok,
            r matches Ok(d) ==> {
                &&& d.graph == graph
                &&& d.blocks == blocks
                &&& d.title.0 matches Value::Str(s) && s@.len() == 0
                &&& d.meta is None
                &&& d.css@.len() == 0
            },
            r matches Err(e) ==> e matches DrawErr::Invalid(m) && m@ == count_msg(
                graph@.len(),
                blocks@.len(),
            ),
    {
        if graph.len() != blocks.len() {
            let mut msg = String::from_str("graph has ");
            push_decimal(&mut msg, graph.len() as u64);
            msg.append(" nodes but ");
            push_decimal(&mut msg, blocks.len() as u64);
            msg.append(" blocks were supplied");
            return Err(DrawErr::new(msg));
        }
        Ok(Diagram { graph, blocks, title: Text(Value::Str(String::new())), meta: None, css: String::new() })
    }

    /// Sets the document title.
    pub fn title(self, title: Text) -> (d: Diagram)
        ensures
            d == (Diagram { title, ..self }),
    {
        Diagram { title, ..self }
    }

    /// Sets the metadata element.
    pub fn meta(self, meta: Meta) -> (d: Diagram)
        ensures
            d == (Diagram { meta: Some(meta), ..self }),
    {
        Diagram { meta: Some(meta), ..self }
    }

    /// Sets CSS placed between the built-in structural and state rules; it
    /// must not change fonts or geometry, which are measured before CSS
    /// applies.
    pub fn css(self, css: String) -> (d: Diagram)
        ensures
            d == (Diagram { css, ..self }),
    {
        Diagram { css, ..self }
    }
}

} // verus!
