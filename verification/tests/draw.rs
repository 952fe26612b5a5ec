use ionize::draw::err::DrawErr;
use ionize::draw::model::{
    Align, Attr, Block, Cell, Col, Diagram, Field, Label, Meta, Row, Run, Table, Text, Value,
    CELL_PAD_Y, FONT_SIZE, SMALL_SIZE,
};
use ionize::draw::svg::{nonnegative, validate, validate_attrs, validate_row, validate_text};
use ionize::graph::{Graph, Node, Size};

fn bits(x: f64) -> u64 {
    x.to_bits()
}

fn invalid(r: Result<usize, DrawErr>) -> String {
    match r {
        Err(DrawErr::Invalid(m)) => m,
        other => panic!("unexpected {other:?}"),
    }
}

fn one_col_table(text: &str) -> Table {
    let mut table = Table::new(vec![Col::normal(0)]);
    table.push(Row::new(vec![Cell::new(Text::new(text))]));
    table
}

fn graph(n: usize) -> Graph {
    let mut g = Graph::new();
    for _ in 0..n {
        g.add(Node::new(Size::default()));
    }
    g
}

#[test]
fn constants_are_the_font_metrics() {
    assert_eq!(f64::from_bits(FONT_SIZE), 14.0);
    assert_eq!(f64::from_bits(SMALL_SIZE), 14.0 * 0.875);
    assert_eq!(f64::from_bits(CELL_PAD_Y), 14.0 * 0.1);
    let c = Col::small(bits(2.0));
    assert_eq!(f64::from_bits(c.pad), 14.0 * 0.875 * 0.5);
    assert_eq!(f64::from_bits(Col::normal(0).pad), 7.0);
}

#[test]
fn texts() {
    assert!(matches!(Text::new("a\u{0}").0, Value::Str(ref s) if s == "a\u{FFFD}"));
    assert!(Text::new("").is_empty());
    assert!(!Text::integer(0).is_empty());
    assert!(matches!(Text::from(7u64).0, Value::Int(7)));
    assert!(matches!(Text::num(bits(1.5)).0, Value::Num(b) if b == bits(1.5)));
}

#[test]
fn builders_keep_order() {
    let meta = Meta::new("m".to_string())
        .attr(Attr::new("a".to_string(), Text::integer(1)))
        .attr(Attr::new("b".to_string(), Text::integer(2)))
        .field(Field::new("f".to_string(), Text::new("x")));
    assert_eq!(meta.attrs.len(), 2);
    assert_eq!(meta.attrs[1].name, "b");
    assert_eq!(meta.fields[0].name, "f");

    let mut cell = Cell::empty().class("c".to_string()).align(Align::Middle);
    cell.push(Run::new(Text::new("x")).class("k".to_string()).pad(bits(3.5)));
    cell.push(Run::new(Text::new("y")));
    assert_eq!(cell.runs.as_slice().len(), 2);
    assert_eq!(cell.runs.as_slice()[0].class, "k");
    assert_eq!(cell.align, Align::Middle);
    assert_eq!(Cell::runs(vec![Run::new(Text::new("p")), Run::new(Text::new("q"))]).runs.as_slice().len(), 2);

    let row = Row::small(vec![Cell::new(Text::new("r"))])
        .class("k".to_string())
        .attr(Attr::new("data-x".to_string(), Text::integer(3)))
        .heat(bits(0.5));
    assert_eq!(row.size, SMALL_SIZE);
    assert_eq!(row.heat, Some(bits(0.5)));
    assert_eq!(row.attrs.len(), 1);

    let block = Block::new(Text::new("B"), one_col_table("t"))
        .class("loop".to_string())
        .body_class("split".to_string())
        .attr(Attr::new("data-y".to_string(), Text::integer(1)))
        .label(Label::new(bits(20.0), Text::new("1")));
    assert_eq!(block.labels.len(), 1);
    assert_eq!(block.class, "loop");
    assert_eq!(block.body_class, "split");

    let d = Diagram::new(graph(1), vec![block]).ok().unwrap();
    let d = d.title(Text::new("T")).meta(Meta::new("m".to_string())).css("x{}".to_string());
    assert_eq!(d.css, "x{}");
    assert!(d.meta.is_some());
}

#[test]
fn diagram_counts_must_agree() {
    match Diagram::new(graph(2), vec![Block::new(Text::new("B"), one_col_table("t"))]) {
        Err(DrawErr::Invalid(m)) => assert_eq!(m, "graph has 2 nodes but 1 blocks were supplied"),
        other => panic!("unexpected {other:?}"),
    }
}

#[test]
fn checks_texts_and_quantities() {
    assert!(validate_text(&Text::num(bits(1.0))).is_ok());
    assert!(validate_text(&Text::new("x")).is_ok());
    assert!(matches!(validate_text(&Text::num(bits(f64::NAN))), Err(DrawErr::Invalid(m)) if m == "text number must be finite"));
    assert!(nonnegative(bits(-0.0), "run padding").is_ok());
    assert!(matches!(nonnegative(bits(-1.0), "run padding"), Err(DrawErr::Invalid(m)) if m == "run padding must be finite and non-negative"));
    assert!(nonnegative(bits(f64::INFINITY), "x").is_err());
}

#[test]
fn checks_attributes() {
    let ok = vec![Attr::new("data-a".to_string(), Text::integer(1))];
    assert!(validate_attrs(&ok, &["class"]).is_ok());
    let reserved = vec![Attr::new("class".to_string(), Text::integer(1))];
    assert!(matches!(validate_attrs(&reserved, &["class"]), Err(DrawErr::Invalid(m)) if m == "attribute name \"class\" is reserved"));
    let xmlns = vec![Attr::new("xmlns".to_string(), Text::integer(1))];
    assert!(validate_attrs(&xmlns, &[]).is_err());
    let dup = vec![
        Attr::new("a".to_string(), Text::integer(1)),
        Attr::new("a".to_string(), Text::integer(2)),
    ];
    assert!(matches!(validate_attrs(&dup, &[]), Err(DrawErr::Invalid(m)) if m == "duplicate attribute name \"a\""));
    let bad = vec![Attr::new("1a".to_string(), Text::integer(1))];
    assert!(matches!(validate_attrs(&bad, &[]), Err(DrawErr::Invalid(m)) if m == "attribute \"1a\" is not a valid XML name"));
}

#[test]
fn checks_rows() {
    let row = Row::new(vec![Cell::new(Text::integer(1)), Cell::new(Text::new("x"))]);
    assert_eq!(validate_row(&row, 2).ok(), Some(1));
    assert!(matches!(validate_row(&row, 3), Err(DrawErr::Invalid(m)) if m == "row cell count 2 does not match column count 3"));
    let hot = Row::new(vec![]).heat(bits(1.5));
    assert!(matches!(validate_row(&hot, 0), Err(DrawErr::Invalid(m)) if m == "row heat must be finite and between zero and one"));
    assert!(validate_row(&Row::new(vec![]).heat(bits(1.0)), 0).is_ok());
    assert!(validate_row(&Row::new(vec![]).heat(bits(-0.0)), 0).is_ok());
    assert!(validate_row(&Row::new(vec![]).heat(bits(-0.5)), 0).is_err());
    let classy = Row::new(vec![]).attr(Attr::new("class".to_string(), Text::integer(1)));
    assert!(validate_row(&classy, 0).is_err());
    let padded = Row::new(vec![Cell::runs(vec![Run::new(Text::new("x")).pad(bits(-2.0))])]);
    assert!(matches!(validate_row(&padded, 1), Err(DrawErr::Invalid(m)) if m == "run padding must be finite and non-negative"));
}

#[test]
fn checks_diagrams_in_order() {
    let block = Block::new(Text::integer(4), one_col_table("t"));
    let d = Diagram::new(graph(1), vec![block]).ok().unwrap();
    assert_eq!(validate(&d).ok(), Some(1));

    let d = Diagram::new(graph(0), vec![]).ok().unwrap().meta(Meta::new("bad tag".to_string()));
    assert_eq!(invalid(validate(&d)), "metadata tag \"bad tag\" is not a valid XML name");

    let meta = Meta::new("ok".to_string()).field(Field::new("2f".to_string(), Text::integer(1)));
    let d = Diagram::new(graph(0), vec![]).ok().unwrap().meta(meta).title(Text::num(bits(f64::NAN)));
    assert_eq!(invalid(validate(&d)), "metadata field \"2f\" is not a valid XML name");

    let d = Diagram::new(graph(0), vec![]).ok().unwrap().title(Text::num(bits(f64::NAN)));
    assert_eq!(invalid(validate(&d)), "text number must be finite");

    let block = Block::new(Text::new("B"), one_col_table("t"))
        .attr(Attr::new("transform".to_string(), Text::integer(1)));
    let d = Diagram::new(graph(1), vec![block]).ok().unwrap();
    assert_eq!(invalid(validate(&d)), "attribute name \"transform\" is reserved");

    let block = Block::new(Text::new("B"), one_col_table("t")).label(Label::new(bits(-1.0), Text::new("1")));
    let d = Diagram::new(graph(1), vec![block]).ok().unwrap();
    assert_eq!(invalid(validate(&d)), "label position must be finite and non-negative");

    let mut table = Table::new(vec![Col::normal(bits(f64::NAN))]);
    table.set_head(Row::new(vec![]));
    let d = Diagram::new(graph(1), vec![Block::new(Text::new("B"), table)]).ok().unwrap();
    assert_eq!(invalid(validate(&d)), "column minimum width must be finite and non-negative");

    let mut table = Table::new(vec![Col::normal(0)]);
    table.set_head(Row::new(vec![]));
    let d = Diagram::new(graph(1), vec![Block::new(Text::new("B"), table)]).ok().unwrap();
    assert_eq!(invalid(validate(&d)), "row cell count 0 does not match column count 1");
}
