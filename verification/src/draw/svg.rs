//! Checks on XML names and the escaping used when text is written as SVG.

use vstd::prelude::*;
use vstd::string::StringExecFns;

use crate::draw::err::DrawErr;
use crate::draw::model::{
    runs_held, xml_char, Attr, Block, Cell, Col, Diagram, Field, Label, Meta, Row, Run, Text, Value,
};
use crate::opts::{finite, is_finite, is_negative, magnitude, negative, unsigned};
use crate::text::{debug_quoted, decimal, push_char, push_decimal, quoted, xml_allowed};

verus! {

/// Whether `c` may start an XML name.
pub open spec fn is_name_start(c: char) -> bool {
    let u = c as u32;
    ||| 0x41 <= u <= 0x5A
    ||| u == 0x5F
    ||| 0x61 <= u <= 0x7A
    ||| 0xC0 <= u <= 0xD6
    ||| 0xD8 <= u <= 0xF6
    ||| 0xF8 <= u <= 0x2FF
    ||| 0x370 <= u <= 0x37D
    ||| 0x37F <= u <= 0x1FFF
    ||| 0x200C <= u <= 0x200D
    ||| 0x2070 <= u <= 0x218F
    ||| 0x2C00 <= u <= 0x2FEF
    ||| 0x3001 <= u <= 0xD7FF
    ||| 0xF900 <= u <= 0xFDCF
    ||| 0xFDF0 <= u <= 0xFFFD
    ||| 0x10000 <= u <= 0xEFFFF
}

/// Whether `c` may continue an XML name.
pub open spec fn is_name_char(c: char) -> bool {
    let u = c as u32;
    ||| is_name_start(c)
    ||| u == 0x2D
    ||| u == 0x2E
    ||| 0x30 <= u <= 0x39
    ||| u == 0xB7
    ||| 0x300 <= u <= 0x36F
    ||| 0x203F <= u <= 0x2040
}

/// Whether `s` is an XML name: a name-start character followed by name
/// characters.
pub open spec fn is_xml_name(s: Seq<char>) -> bool {
    &&& s.len() > 0
    &&& is_name_start(s[0])
    &&& forall|i: int| 1 <= i < s.len() ==> is_name_char(#[trigger] s[i])
}

/// The message for a name that is not an XML name: what it names, the
/// name as `Debug` writes it, and the complaint.
pub open spec fn invalid_name_msg(what: Seq<char>, name: Seq<char>) -> Seq<char> {
    what + " "@ + debug_quoted(name) + " is not a valid XML name"@
}

/// The escape written for `c` in XML text and attribute values: an entity
/// for the five markup characters, `c` itself otherwise.
pub open spec fn entity(c: char) -> Seq<char> {
    if c == '&' {
        "&amp;"@
    } else if c == '<' {
        "&lt;"@
    } else if c == '>' {
        "&gt;"@
    } else if c == '"' {
        "&quot;"@
    } else if c == '\'' {
        "&apos;"@
    } else {
        seq![c]
    }
}

/// `s` with each markup character replaced by its entity.
pub open spec fn escaped(s: Seq<char>) -> Seq<char>
    decreases s.len(),
{
    if s.len() == 0 {
        seq![]
    } else {
        escaped(s.drop_last()) + entity(s.last())
    }
}

/// The escape written for `c` by [`xml`]: an entity for a markup character,
/// U+FFFD for a character XML cannot represent, `c` itself otherwise.
pub open spec fn xml_entity(c: char) -> Seq<char> {
    if c == '&' || c == '<' || c == '>' || c == '"' || c == '\'' {
        entity(c)
    } else if !xml_allowed(c) {
        seq!['\u{FFFD}']
    } else {
        seq![c]
    }
}

/// `s` with each markup character replaced by its entity and each character
/// XML cannot represent by U+FFFD.
pub open spec fn xml_escaped(s: Seq<char>) -> Seq<char>
    decreases s.len(),
{
    if s.len() == 0 {
        seq![]
    } else {
        xml_escaped(s.drop_last()) + xml_entity(s.last())
    }
}

/// Returns whether `ch` may start an XML name.
pub fn name_start(ch: char) -> (r: bool)
    ensures
        r == is_name_start(ch),
{
    let u = ch as u32;
    (0x41 <= u && u <= 0x5A) || u == 0x5F || (0x61 <= u && u <= 0x7A) || (0xC0 <= u && u
        <= 0xD6) || (0xD8 <= u && u <= 0xF6) || (0xF8 <= u && u <= 0x2FF) || (0x370 <= u && u
        <= 0x37D) || (0x37F <= u && u <= 0x1FFF) || (0x200C <= u && u <= 0x200D) || (0x2070
        <= u && u <= 0x218F) || (0x2C00 <= u && u <= 0x2FEF) || (0x3001 <= u && u <= 0xD7FF)
        || (0xF900 <= u && u <= 0xFDCF) || (0xFDF0 <= u && u <= 0xFFFD) || (0x10000 <= u && u
        <= 0xEFFFF)
}

/// Returns whether `ch` may continue an XML name.
pub fn name_char(ch: char) -> (r: bool)
    ensures
        r == is_name_char(ch),
{
    let u = ch as u32;
    name_start(ch) || u == 0x2D || u == 0x2E || (0x30 <= u && u <= 0x39) || u == 0xB7 || (0x300
        <= u && u <= 0x36F) || (0x203F <= u && u <= 0x2040)
}

/// Checks that `name` is an XML name; `what` says what it names in the
/// error.
pub fn validate_name(name: &str, what: &str) -> (r: Result<(), DrawErr>)
    ensures
        r is Ok <==> is_xml_name(name@),
        r matches Err(e) ==> e matches DrawErr::Invalid(m) && m@ == invalid_name_msg(
            what@,
            name@,
        ),
        reports(r, seq![Check::Name(name@, what@)]),
{
    proof {
        lemma_check_error_one(Check::Name(name@, what@));
    }
    let ghost s = name@;
    let mut ok = true;
    let mut first = true;
    for c in it: name.chars()
        invariant
            it.seq() == s,
            first == (it.index() == 0),
            ok == (forall|i: int|
                0 <= i < it.index() ==> if i == 0 {
                    is_name_start(#[trigger] s[i])
                } else {
                    is_name_char(s[i])
                }),
    {
        let good = if first {
            name_start(c)
        } else {
            name_char(c)
        };
        ok = ok && good;
        first = false;
    }
    if ok && !name.is_empty() {
        assert(is_name_start(s[0]));
        Ok(())
    } else {
        let mut msg = String::from_str(what);
        msg.append(" ");
        let q = quoted(name);
        msg.append(q.as_str());
        msg.append(" is not a valid XML name");
        assert(!is_xml_name(s)) by {
            if s.len() > 0 {
                let i = choose|i: int|
                    0 <= i < s.len() && !(if i == 0 {
                        is_name_start(#[trigger] s[i])
                    } else {
                        is_name_char(s[i])
                    });
                if i != 0 {
                    assert(!is_name_char(s[i]));
                }
            }
        }
        Err(DrawErr::new(msg))
    }
}

/// Appends `value` to `out` with each markup character escaped.
pub fn write_normalized(out: &mut String, value: &str)
    ensures
        final(out)@ == old(out)@ + escaped(value@),
{
    let ghost start = out@;
    let ghost s = value@;
    for c in it: value.chars()
        invariant
            it.seq() == s,
            out@ == start + escaped(s.take(it.index() as int)),
    {
        if c == '&' {
            out.append("&amp;");
        } else if c == '<' {
            out.append("&lt;");
        } else if c == '>' {
            out.append("&gt;");
        } else if c == '"' {
            out.append("&quot;");
        } else if c == '\'' {
            out.append("&apos;");
        } else {
            push_char(out, c);
        }
        assert(s.take(it.index() as int + 1).drop_last() =~= s.take(it.index() as int));
        assert(out@ =~= start + escaped(s.take(it.index() as int + 1)));
    }
    assert(s.take(s.len() as int) =~= s);
}

/// What [`xml`] writes can stand in XML text and in a quoted attribute value:
/// no character of it is `<`, `>`, `"` or `'`, and XML can represent each.
pub proof fn lemma_xml_escaped_safe(s: Seq<char>)
    ensures
        forall|i: int|
            0 <= i < xml_escaped(s).len() ==> {
                let c = #[trigger] xml_escaped(s)[i];
                &&& c != '<' && c != '>' && c != '"' && c != '\''
                &&& xml_allowed(c)
            },
    decreases s.len(),
{
    if s.len() > 0 {
        lemma_xml_escaped_safe(s.drop_last());
        let head = xml_escaped(s.drop_last());
        let tail = xml_entity(s.last());
        reveal_strlit("&amp;");
        reveal_strlit("&lt;");
        reveal_strlit("&gt;");
        reveal_strlit("&quot;");
        reveal_strlit("&apos;");
        assert forall|i: int| 0 <= i < tail.len() implies {
            let c = #[trigger] tail[i];
            &&& c != '<' && c != '>' && c != '"' && c != '\''
            &&& xml_allowed(c)
        } by {}
        assert forall|i: int| 0 <= i < xml_escaped(s).len() implies {
            let c = #[trigger] xml_escaped(s)[i];
            &&& c != '<' && c != '>' && c != '"' && c != '\''
            &&& xml_allowed(c)
        } by {
            if i < head.len() {
                assert(xml_escaped(s)[i] == head[i]);
            } else {
                assert(xml_escaped(s)[i] == tail[i - head.len()]);
            }
        }
    }
}

/// Escapes `value` for XML: markup characters become entities and
/// characters XML cannot represent become U+FFFD.
pub fn xml(value: &str) -> (r: String)
    ensures
        r@ == xml_escaped(value@),
{
    let mut out = String::new();
    let ghost s = value@;
    for c in it: value.chars()
        invariant
            it.seq() == s,
            out@ == xml_escaped(s.take(it.index() as int)),
    {
        if c == '&' {
            out.append("&amp;");
        } else if c == '<' {
            out.append("&lt;");
        } else if c == '>' {
            out.append("&gt;");
        } else if c == '"' {
            out.append("&quot;");
        } else if c == '\'' {
            out.append("&apos;");
        } else if !xml_char(c) {
            push_char(&mut out, '\u{FFFD}');
        } else {
            push_char(&mut out, c);
        }
        assert(s.take(it.index() as int + 1).drop_last() =~= s.take(it.index() as int));
        assert(out@ =~= xml_escaped(s.take(it.index() as int + 1)));
    }
    assert(s.take(s.len() as int) =~= s);
    out
}

/// One check made on a diagram before it is drawn.
pub enum Check {
    /// The first field must be an XML name; the second says what it names.
    Name(Seq<char>, Seq<char>),
    /// The attribute name must not be reserved; the flag says whether it is.
    Reserved(Seq<char>, bool),
    /// The attribute name must not repeat; the flag says whether it does.
    Duplicate(Seq<char>, bool),
    /// A text's number, if it holds one, must be finite.
    Finite(Option<u64>),
    /// The quantity must be finite and non-negative; the second field says
    /// what it is.
    NonNeg(u64, Seq<char>),
    /// A row must have as many cells (first field) as columns (second).
    CellCount(nat, nat),
    /// A row heat, if set, must be finite and between zero and one.
    Heat(Option<u64>),
}

/// Whether the `f64` with bit pattern `b` is finite and not below zero.
pub open spec fn finite_nonneg(b: u64) -> bool {
    is_finite(b) && !is_negative(b)
}

/// Whether the check fails.
pub open spec fn fails(c: Check) -> bool {
    match c {
        Check::Name(n, _) => !is_xml_name(n),
        Check::Reserved(_, r) => r,
        Check::Duplicate(_, d) => d,
        Check::Finite(Some(b)) => !is_finite(b),
        Check::Finite(None) => false,
        Check::NonNeg(b, _) => !finite_nonneg(b),
        Check::CellCount(n, c) => n != c,
        Check::Heat(Some(h)) => !(finite_nonneg(h) && magnitude(h) <= 0x3ff0000000000000u64),
        Check::Heat(None) => false,
    }
}

/// The message of a failed check.
pub open spec fn message(c: Check) -> Seq<char> {
    match c {
        Check::Name(n, w) => invalid_name_msg(w, n),
        Check::Reserved(n, _) => "attribute name "@ + debug_quoted(n) + " is reserved"@,
        Check::Duplicate(n, _) => "duplicate attribute name "@ + debug_quoted(n),
        Check::Finite(_) => "text number must be finite"@,
        Check::NonNeg(_, w) => w + " must be finite and non-negative"@,
        Check::CellCount(n, c) => "row cell count "@ + decimal(n) + " does not match column count "@
            + decimal(c),
        Check::Heat(_) => "row heat must be finite and between zero and one"@,
    }
}

/// The message of the first failing check, if one fails.
pub open spec fn check_error(cs: Seq<Check>) -> Option<Seq<char>>
    decreases cs.len(),
{
    if cs.len() == 0 {
        None
    } else if fails(cs[0]) {
        Some(message(cs[0]))
    } else {
        check_error(cs.drop_first())
    }
}

/// The first failure of two runs of checks is the first run's, if it has
/// one, else the second's.
pub proof fn lemma_check_error_concat(a: Seq<Check>, b: Seq<Check>)
    ensures
        check_error(a + b) == if check_error(a) is Some {
            check_error(a)
        } else {
            check_error(b)
        },
    decreases a.len(),
{
    if a.len() == 0 {
        assert(a + b =~= b);
    } else {
        assert((a + b).drop_first() =~= a.drop_first() + b);
        lemma_check_error_concat(a.drop_first(), b);
    }
}

/// A single check reports its own failure.
pub proof fn lemma_check_error_one(c: Check)
    ensures
        check_error(seq![c]) == if fails(c) {
            Some(message(c))
        } else {
            None::<Seq<char>>
        },
{
    assert(seq![c].drop_first() =~= Seq::<Check>::empty());
    assert(check_error(Seq::<Check>::empty()) is None);
    assert(seq![c][0] == c);
}

/// The checks `f(0)`, ..., `f(n - 1)` in order.
pub open spec fn concat_upto(n: int, f: spec_fn(int) -> Seq<Check>) -> Seq<Check>
    decreases n,
{
    if n <= 0 {
        seq![]
    } else {
        concat_upto(n - 1, f) + f(n - 1)
    }
}

/// A failure among the first `k` groups of checks is the first failure of
/// all `n`.
pub proof fn lemma_error_persists(f: spec_fn(int) -> Seq<Check>, k: int, n: int)
    requires
        0 <= k <= n,
        check_error(concat_upto(k, f)) is Some,
    ensures
        check_error(concat_upto(n, f)) == check_error(concat_upto(k, f)),
    decreases n - k,
{
    if n > k {
        lemma_error_persists(f, k, n - 1);
        lemma_check_error_concat(concat_upto(n - 1, f), f(n - 1));
    }
}

/// Passing the first `k` groups, the first failure of the first `k + 1` is
/// that of group `k`.
pub proof fn lemma_error_next(f: spec_fn(int) -> Seq<Check>, k: int)
    requires
        0 <= k,
        check_error(concat_upto(k, f)) is None,
    ensures
        check_error(concat_upto(k + 1, f)) == check_error(f(k)),
{
    lemma_check_error_concat(concat_upto(k, f), f(k));
}

/// Passing the first `k` of `n` groups, the first failure of all `n` is
/// that of group `k` when group `k` fails.
pub proof fn lemma_error_at(f: spec_fn(int) -> Seq<Check>, k: int, n: int)
    requires
        0 <= k < n,
        check_error(concat_upto(k, f)) is None,
        check_error(f(k)) is Some,
    ensures
        check_error(concat_upto(n, f)) == check_error(f(k)),
{
    lemma_error_next(f, k);
    lemma_error_persists(f, k + 1, n);
}

/// `f(0) + ... + f(n - 1)`.
pub open spec fn sum_upto(n: int, f: spec_fn(int) -> nat) -> nat
    decreases n,
{
    if n <= 0 {
        0
    } else {
        sum_upto(n - 1, f) + f(n - 1)
    }
}

/// The check on a text: its number, if any, must be finite.
pub open spec fn text_check(t: Text) -> Check {
    Check::Finite(
        match t.0 {
            Value::Num(b) => Some(b),
            _ => None,
        },
    )
}

/// One for a text the renderer can cache by value (a number), zero for a
/// string.
pub open spec fn keyed(t: Text) -> nat {
    match t.0 {
        Value::Str(_) => 0,
        _ => 1,
    }
}

/// The checks on the `i`th attribute: its name is an XML name, is not
/// `xmlns` or one of `reserved`, and does not repeat an earlier one; its
/// value's number is finite.
pub open spec fn attr_checks(attrs: Seq<Attr>, reserved: Seq<Seq<char>>, i: int) -> Seq<Check> {
    let n = attrs[i].name@;
    seq![
        Check::Name(n, "attribute"@),
        Check::Reserved(n, n == "xmlns"@ || reserved.contains(n)),
        Check::Duplicate(n, exists|j: int| 0 <= j < i && #[trigger] attrs[j].name@ == n),
        text_check(attrs[i].value),
    ]
}

/// [`attr_checks`] as a function of the index.
pub open spec fn attr_item(attrs: Seq<Attr>, reserved: Seq<Seq<char>>) -> spec_fn(int) -> Seq<
    Check,
> {
    |i: int| attr_checks(attrs, reserved, i)
}

/// The checks on attributes, in order.
pub open spec fn attrs_checks(attrs: Seq<Attr>, reserved: Seq<Seq<char>>) -> Seq<Check> {
    concat_upto(attrs.len() as int, attr_item(attrs, reserved))
}

/// The views of strings.
pub open spec fn str_views(v: Seq<&str>) -> Seq<Seq<char>> {
    Seq::new(v.len(), |i: int| v[i]@)
}

/// Whether `r` reports the first failure among `cs`: an invalid-data error
/// with its message, or success when none fails.
pub open spec fn reports<T>(r: Result<T, DrawErr>, cs: Seq<Check>) -> bool {
    match check_error(cs) {
        Some(m) => r matches Err(e) && e matches DrawErr::Invalid(s) && s@ == m,
        None => r is Ok,
    }
}

/// Checks that a text's number, if it holds one, is finite.
pub fn validate_text(text: &Text) -> (r: Result<(), DrawErr>)
    ensures
        reports(r, seq![text_check(*text)]),
{
    proof {
        lemma_check_error_one(text_check(*text));
    }
    match &text.0 {
        Value::Num(b) => {
            if !finite(*b) {
                return Err(DrawErr::new(String::from_str("text number must be finite")));
            }
        },
        _ => {},
    }
    Ok(())
}

/// Checks that the quantity with bit pattern `value` is finite and not
/// below zero; `what` says what it is.
pub fn nonnegative(value: u64, what: &str) -> (r: Result<(), DrawErr>)
    ensures
        reports(r, seq![Check::NonNeg(value, what@)]),
{
    proof {
        lemma_check_error_one(Check::NonNeg(value, what@));
    }
    if finite(value) && !negative(value) {
        Ok(())
    } else {
        let mut msg = String::from_str(what);
        msg.append(" must be finite and non-negative");
        Err(DrawErr::new(msg))
    }
}

/// Returns whether `name` is one of `names`.
fn listed(names: &[&str], name: &String) -> (b: bool)
    ensures
        b == str_views(names@).contains(name@),
{
    let mut k: usize = 0;
    while k < names.len()
        invariant
            k <= names@.len(),
            forall|j: int| 0 <= j < k ==> names@[j]@ != name@,
        decreases names@.len() - k,
    {
        let candidate = String::from_str(names[k]);
        if candidate == *name {
            assert(str_views(names@)[k as int] == name@);
            return true;
        }
        k = k + 1;
    }
    assert(!str_views(names@).contains(name@)) by {
        if str_views(names@).contains(name@) {
            let j = choose|j: int| 0 <= j < names@.len() && str_views(names@)[j] == name@;
            assert(names@[j]@ == name@);
        }
    }
    false
}

/// Returns whether an attribute before the `i`th has its name.
fn named_before(attrs: &[Attr], i: usize) -> (b: bool)
    requires
        i < attrs@.len(),
    ensures
        b == exists|j: int| 0 <= j < i && #[trigger] attrs@[j].name@ == attrs@[i as int].name@,
{
    let mut j: usize = 0;
    while j < i
        invariant
            j <= i < attrs@.len(),
            forall|l: int| 0 <= l < j ==> attrs@[l].name@ != attrs@[i as int].name@,
        decreases i - j,
    {
        if attrs[j].name == attrs[i].name {
            return true;
        }
        j = j + 1;
    }
    false
}

/// Checks attributes in order: each name is an XML name, is neither
/// `xmlns` nor one of `reserved`, and does not repeat an earlier one; each
/// value's number is finite.
pub fn validate_attrs(attrs: &[Attr], reserved: &[&str]) -> (r: Result<(), DrawErr>)
    ensures
        reports(r, attrs_checks(attrs@, str_views(reserved@))),
{
    let ghost res = str_views(reserved@);
    let ghost f = attr_item(attrs@, res);
    let xmlns = String::from_str("xmlns");
    let mut i: usize = 0;
    while i < attrs.len()
        invariant
            i <= attrs@.len(),
            res == str_views(reserved@),
            f == attr_item(attrs@, res),
            xmlns@ == "xmlns"@,
            check_error(concat_upto(i as int, f)) is None,
        decreases attrs@.len() - i,
    {
        let attr = &attrs[i];
        let ghost cs = attr_checks(attrs@, res, i as int);
        proof {
            lemma_error_next(f, i as int);
            assert(f(i as int) == cs);
            lemma_check_error_concat(seq![cs[0]], cs.drop_first());
            assert(seq![cs[0]] + cs.drop_first() =~= cs);
            lemma_check_error_one(cs[0]);
            lemma_check_error_concat(seq![cs[1]], cs.drop_first().drop_first());
            assert(seq![cs[1]] + cs.drop_first().drop_first() =~= cs.drop_first());
            lemma_check_error_one(cs[1]);
            lemma_check_error_concat(seq![cs[2]], seq![cs[3]]);
            assert(seq![cs[2]] + seq![cs[3]] =~= cs.drop_first().drop_first());
            lemma_check_error_one(cs[2]);
            lemma_check_error_one(cs[3]);
        }
        match validate_name(attr.name.as_str(), "attribute") {
            Ok(()) => {},
            Err(e) => {
                proof {
                    lemma_error_at(f, i as int, attrs@.len() as int);
                }
                return Err(e);
            },
        }
        if attr.name == xmlns || listed(reserved, &attr.name) {
            let mut msg = String::from_str("attribute name ");
            let q = quoted(attr.name.as_str());
            msg.append(q.as_str());
            msg.append(" is reserved");
            proof {
                lemma_error_at(f, i as int, attrs@.len() as int);
            }
            return Err(DrawErr::new(msg));
        }
        if named_before(attrs, i) {
            let mut msg = String::from_str("duplicate attribute name ");
            let q = quoted(attr.name.as_str());
            msg.append(q.as_str());
            proof {
                lemma_error_at(f, i as int, attrs@.len() as int);
            }
            return Err(DrawErr::new(msg));
        }
        match validate_text(&attr.value) {
            Ok(()) => {},
            Err(e) => {
                proof {
                    lemma_error_at(f, i as int, attrs@.len() as int);
                }
                return Err(e);
            },
        }
        i = i + 1;
    }
    Ok(())
}

/// The checks on a run: its padding and its text.
pub open spec fn run_item(runs: Seq<Run>) -> spec_fn(int) -> Seq<Check> {
    |i: int| seq![Check::NonNeg(runs[i].pad, "run padding"@), text_check(runs[i].text)]
}

/// The checks on the runs of the `i`th cell.
pub open spec fn cell_item(cells: Seq<Cell>) -> spec_fn(int) -> Seq<Check> {
    |i: int|
        concat_upto(
            runs_held(cells[i].runs).len() as int,
            run_item(runs_held(cells[i].runs)),
        )
}

/// The checks on a row of a table with `cols` columns: its cell count, its
/// heat, its attributes (`class` is reserved) and its runs.
pub open spec fn row_checks(r: Row, cols: nat) -> Seq<Check> {
    seq![Check::CellCount(r.cells@.len(), cols), Check::Heat(r.heat)] + attrs_checks(
        r.attrs@,
        seq!["class"@],
    ) + concat_upto(r.cells@.len() as int, cell_item(r.cells@))
}

/// Whether the text of the `j`th run is cacheable.
pub open spec fn run_keyed(runs: Seq<Run>) -> spec_fn(int) -> nat {
    |j: int| keyed(runs[j].text)
}

/// The cacheable texts among the runs of the `i`th cell.
pub open spec fn cell_keyed(cells: Seq<Cell>) -> spec_fn(int) -> nat {
    |i: int| sum_upto(runs_held(cells[i].runs).len() as int, run_keyed(runs_held(cells[i].runs)))
}

/// The cacheable texts of a row.
pub open spec fn row_keyed(r: Row) -> nat {
    sum_upto(r.cells@.len() as int, cell_keyed(r.cells@))
}

/// `n`, or `usize::MAX` if it is larger.
pub open spec fn saturated(n: nat) -> nat {
    if n > usize::MAX {
        usize::MAX as nat
    } else {
        n
    }
}

/// Returns one for a text the renderer can cache by value, zero otherwise.
fn key_text(t: &Text) -> (n: usize)
    ensures
        n == keyed(*t),
{
    match &t.0 {
        Value::Str(_) => 0,
        _ => 1,
    }
}

/// Checks the runs of a cell and counts their cacheable texts, adding to
/// `count` without passing `usize::MAX`.
fn validate_runs(runs: &[Run], count: usize) -> (r: Result<usize, DrawErr>)
    ensures
        reports(r, concat_upto(runs@.len() as int, run_item(runs@))),
        r matches Ok(n) ==> n == saturated(count as nat + sum_upto(runs@.len() as int, run_keyed(runs@))),
{
    let ghost f = run_item(runs@);
    let ghost g = run_keyed(runs@);
    let mut count = count;
    let ghost start = count as nat;
    let mut j: usize = 0;
    while j < runs.len()
        invariant
            j <= runs@.len(),
            f == run_item(runs@),
            g == run_keyed(runs@),
            check_error(concat_upto(j as int, f)) is None,
            count == saturated(start + sum_upto(j as int, g)),
        decreases runs@.len() - j,
    {
        let run = &runs[j];
        let ghost cs = f(j as int);
        proof {
            lemma_error_next(f, j as int);
            lemma_check_error_concat(seq![cs[0]], seq![cs[1]]);
            assert(seq![cs[0]] + seq![cs[1]] =~= cs);
            lemma_check_error_one(cs[0]);
            lemma_check_error_one(cs[1]);
        }
        match nonnegative(run.pad, "run padding") {
            Ok(()) => {},
            Err(e) => {
                proof {
                    lemma_error_at(f, j as int, runs@.len() as int);
                }
                return Err(e);
            },
        }
        match validate_text(&run.text) {
            Ok(()) => {},
            Err(e) => {
                proof {
                    lemma_error_at(f, j as int, runs@.len() as int);
                }
                return Err(e);
            },
        }
        count = count.saturating_add(key_text(&run.text));
        j = j + 1;
    }
    Ok(count)
}

/// Checks a row of a table with `cols` columns: one cell per column, a
/// heat between zero and one, valid attributes (`class` is reserved) and
/// valid runs. Counts the cacheable texts of its runs.
pub fn validate_row(row: &Row, cols: usize) -> (r: Result<usize, DrawErr>)
    ensures
        reports(r, row_checks(*row, cols as nat)),
        r matches Ok(n) ==> n == saturated(row_keyed(*row)),
{
    let ghost cells = row.cells@;
    let ghost head = seq![Check::CellCount(cells.len(), cols as nat), Check::Heat(row.heat)];
    let ghost attrs = attrs_checks(row.attrs@, seq!["class"@]);
    let ghost f = cell_item(cells);
    let ghost g = cell_keyed(cells);
    proof {
        lemma_check_error_concat(head + attrs, concat_upto(cells.len() as int, f));
        lemma_check_error_concat(head, attrs);
        lemma_check_error_concat(seq![head[0]], seq![head[1]]);
        assert(seq![head[0]] + seq![head[1]] =~= head);
        lemma_check_error_one(head[0]);
        lemma_check_error_one(head[1]);
    }
    if row.cells.len() != cols {
        let mut msg = String::from_str("row cell count ");
        push_decimal(&mut msg, row.cells.len() as u64);
        msg.append(" does not match column count ");
        push_decimal(&mut msg, cols as u64);
        return Err(DrawErr::new(msg));
    }
    match row.heat {
        Some(heat) => {
            if !(finite(heat) && !negative(heat) && unsigned(heat) <= 0x3ff0000000000000u64) {
                return Err(
                    DrawErr::new(
                        String::from_str("row heat must be finite and between zero and one"),
                    ),
                );
            }
        },
        None => {},
    }
    let reserved: [&str; 1] = ["class"];
    proof {
        assert(str_views(reserved@) =~= seq!["class"@]);
    }
    match validate_attrs(&row.attrs, &reserved) {
        Ok(()) => {},
        Err(e) => {
            return Err(e);
        },
    }
    let mut count: usize = 0;
    let mut i: usize = 0;
    while i < row.cells.len()
        invariant
            i <= cells.len(),
            cells == row.cells@,
            f == cell_item(cells),
            g == cell_keyed(cells),
            check_error(concat_upto(i as int, f)) is None,
            count == saturated(sum_upto(i as int, g)),
            check_error(head + attrs) is None,
            check_error(row_checks(*row, cols as nat)) == check_error(
                concat_upto(cells.len() as int, f),
            ),
        decreases cells.len() - i,
    {
        let runs = row.cells[i].runs.as_slice();
        match validate_runs(runs, count) {
            Ok(n) => {
                count = n;
                proof {
                    lemma_error_next(f, i as int);
                }
            },
            Err(e) => {
                proof {
                    lemma_error_at(f, i as int, cells.len() as int);
                }
                return Err(e);
            },
        }
        i = i + 1;
    }
    Ok(count)
}

/// The checks on the `i`th label: its position and its text.
pub open spec fn label_item(labels: Seq<Label>) -> spec_fn(int) -> Seq<Check> {
    |i: int|
        seq![Check::NonNeg(labels[i].x, "label position"@), text_check(labels[i].text)]
}

/// The check on the `i`th column: its minimum width.
pub open spec fn col_item(cols: Seq<Col>) -> spec_fn(int) -> Seq<Check> {
    |i: int| seq![Check::NonNeg(cols[i].min, "column minimum width"@)]
}

/// The checks on the `i`th body row of a table with `cols` columns.
pub open spec fn row_item(rows: Seq<Row>, cols: nat) -> spec_fn(int) -> Seq<Check> {
    |i: int| row_checks(rows[i], cols)
}

/// The checks on a header row, if there is one.
pub open spec fn head_checks(head: Option<Row>, cols: nat) -> Seq<Check> {
    match head {
        Some(r) => row_checks(r, cols),
        None => seq![],
    }
}

/// The checks on a block, in order: its title, its attributes (`class`
/// and `transform` are reserved), its labels, its columns, its header row
/// and its body rows.
pub open spec fn block_checks(b: Block) -> Seq<Check> {
    let t = b.table;
    let cols = t.cols@.len();
    seq![text_check(b.title)] + attrs_checks(b.attrs@, seq!["class"@, "transform"@])
        + concat_upto(b.labels@.len() as int, label_item(b.labels@)) + concat_upto(
        cols as int,
        col_item(t.cols@),
    ) + head_checks(t.head, cols) + concat_upto(t.rows@.len() as int, row_item(t.rows@, cols))
}

/// The checks on the `i`th block.
pub open spec fn block_item(blocks: Seq<Block>) -> spec_fn(int) -> Seq<Check> {
    |i: int| block_checks(blocks[i])
}

/// The checks on the `i`th metadata field: its name and its value.
pub open spec fn field_item(fields: Seq<Field>) -> spec_fn(int) -> Seq<Check> {
    |i: int|
        seq![Check::Name(fields[i].name@, "metadata field"@), text_check(fields[i].value)]
}

/// The checks on the metadata element, if there is one: its tag, its
/// attributes and its fields.
pub open spec fn meta_checks(m: Option<Meta>) -> Seq<Check> {
    match m {
        Some(m) => seq![Check::Name(m.tag@, "metadata tag"@)] + attrs_checks(m.attrs@, seq![])
            + concat_upto(m.fields@.len() as int, field_item(m.fields@)),
        None => seq![],
    }
}

/// The checks on a diagram, in order: its metadata, its title and its
/// blocks.
pub open spec fn diagram_checks(d: Diagram) -> Seq<Check> {
    meta_checks(d.meta) + seq![text_check(d.title)] + concat_upto(
        d.blocks@.len() as int,
        block_item(d.blocks@),
    )
}

/// The cacheable texts of the `i`th body row.
pub open spec fn row_keyed_item(rows: Seq<Row>) -> spec_fn(int) -> nat {
    |i: int| row_keyed(rows[i])
}

/// The cacheable texts of a block: its title and the runs of its rows.
pub open spec fn block_keyed(b: Block) -> nat {
    keyed(b.title) + match b.table.head {
        Some(r) => row_keyed(r),
        None => 0,
    } + sum_upto(b.table.rows@.len() as int, row_keyed_item(b.table.rows@))
}

/// The cacheable texts of the `i`th block.
pub open spec fn block_keyed_item(blocks: Seq<Block>) -> spec_fn(int) -> nat {
    |i: int| block_keyed(blocks[i])
}

/// Checks a block and counts its cacheable texts, adding to `count`
/// without passing `usize::MAX`.
fn validate_block(block: &Block, count: usize) -> (r: Result<usize, DrawErr>)
    ensures
        reports(r, block_checks(*block)),
        r matches Ok(n) ==> n == saturated(count as nat + block_keyed(*block)),
{
    let table = &block.table;
    let ghost cols = table.cols@.len();
    let ghost t = seq![text_check(block.title)];
    let ghost a = attrs_checks(block.attrs@, seq!["class"@, "transform"@]);
    let ghost lf = label_item(block.labels@);
    let ghost l = concat_upto(block.labels@.len() as int, lf);
    let ghost cf = col_item(table.cols@);
    let ghost c = concat_upto(cols as int, cf);
    let ghost h = head_checks(table.head, cols);
    let ghost rf = row_item(table.rows@, cols);
    let ghost rows = concat_upto(table.rows@.len() as int, rf);
    let ghost rk = row_keyed_item(table.rows@);
    proof {
        lemma_check_error_concat(t + a + l + c + h, rows);
        lemma_check_error_concat(t + a + l + c, h);
        lemma_check_error_concat(t + a + l, c);
        lemma_check_error_concat(t + a, l);
        lemma_check_error_concat(t, a);
        lemma_check_error_one(text_check(block.title));
    }
    match validate_text(&block.title) {
        Ok(()) => {},
        Err(e) => {
            return Err(e);
        },
    }
    let mut count = count.saturating_add(key_text(&block.title));
    let reserved: [&str; 2] = ["class", "transform"];
    proof {
        assert(str_views(reserved@) =~= seq!["class"@, "transform"@]);
    }
    match validate_attrs(&block.attrs, &reserved) {
        Ok(()) => {},
        Err(e) => {
            return Err(e);
        },
    }
    let mut i: usize = 0;
    while i < block.labels.len()
        invariant
            i <= block.labels@.len(),
            lf == label_item(block.labels@),
            check_error(concat_upto(i as int, lf)) is None,
            l == concat_upto(block.labels@.len() as int, lf),
            check_error(l) is Some ==> check_error(block_checks(*block)) == check_error(l),
        decreases block.labels@.len() - i,
    {
        let label = &block.labels[i];
        let ghost cs = lf(i as int);
        proof {
            lemma_error_next(lf, i as int);
            lemma_check_error_concat(seq![cs[0]], seq![cs[1]]);
            assert(seq![cs[0]] + seq![cs[1]] =~= cs);
            lemma_check_error_one(cs[0]);
            lemma_check_error_one(cs[1]);
        }
        match nonnegative(label.x, "label position") {
            Ok(()) => {},
            Err(e) => {
                proof {
                    lemma_error_at(lf, i as int, block.labels@.len() as int);
                }
                return Err(e);
            },
        }
        match validate_text(&label.text) {
            Ok(()) => {},
            Err(e) => {
                proof {
                    lemma_error_at(lf, i as int, block.labels@.len() as int);
                }
                return Err(e);
            },
        }
        i = i + 1;
    }
    let mut i: usize = 0;
    while i < table.cols.len()
        invariant
            i <= cols,
            cols == table.cols@.len(),
            cf == col_item(table.cols@),
            check_error(concat_upto(i as int, cf)) is None,
            c == concat_upto(cols as int, cf),
            check_error(c) is Some ==> check_error(block_checks(*block)) == check_error(c),
        decreases cols - i,
    {
        proof {
            lemma_error_next(cf, i as int);
            lemma_check_error_one(cf(i as int)[0]);
            assert(seq![cf(i as int)[0]] =~= cf(i as int));
        }
        match nonnegative(table.cols[i].min, "column minimum width") {
            Ok(()) => {},
            Err(e) => {
                proof {
                    lemma_error_at(cf, i as int, cols as int);
                }
                return Err(e);
            },
        }
        i = i + 1;
    }
    let ncols = table.cols.len();
    match &table.head {
        Some(row) => {
            match validate_row(row, ncols) {
                Ok(n) => {
                    count = count.saturating_add(n);
                },
                Err(e) => {
                    return Err(e);
                },
            }
        },
        None => {},
    }
    let ghost base = count as nat;
    let mut i: usize = 0;
    while i < table.rows.len()
        invariant
            i <= table.rows@.len(),
            ncols == cols,
            rf == row_item(table.rows@, cols),
            rk == row_keyed_item(table.rows@),
            check_error(concat_upto(i as int, rf)) is None,
            rows == concat_upto(table.rows@.len() as int, rf),
            check_error(rows) is Some ==> check_error(block_checks(*block)) == check_error(rows),
            count == saturated(base + sum_upto(i as int, rk)),
        decreases table.rows@.len() - i,
    {
        match validate_row(&table.rows[i], ncols) {
            Ok(n) => {
                count = count.saturating_add(n);
                proof {
                    lemma_error_next(rf, i as int);
                }
            },
            Err(e) => {
                proof {
                    lemma_error_at(rf, i as int, table.rows@.len() as int);
                }
                return Err(e);
            },
        }
        i = i + 1;
    }
    Ok(count)
}

/// Checks a diagram before it is drawn: its metadata, title and blocks, in
/// that order, reporting the first failure. Returns how many texts the
/// renderer can cache by value, at most `usize::MAX`.
pub fn validate(diagram: &Diagram) -> (r: Result<usize, DrawErr>)
    ensures
        reports(r, diagram_checks(*diagram)),
        r matches Ok(n) ==> n == saturated(
            sum_upto(diagram.blocks@.len() as int, block_keyed_item(diagram.blocks@)),
        ),
{
    let ghost m = meta_checks(diagram.meta);
    let ghost t = seq![text_check(diagram.title)];
    let ghost bf = block_item(diagram.blocks@);
    let ghost bk = block_keyed_item(diagram.blocks@);
    let ghost bs = concat_upto(diagram.blocks@.len() as int, bf);
    proof {
        lemma_check_error_concat(m + t, bs);
        lemma_check_error_concat(m, t);
        lemma_check_error_one(text_check(diagram.title));
    }
    match &diagram.meta {
        Some(meta) => {
            let ghost tag = seq![Check::Name(meta.tag@, "metadata tag"@)];
            let ghost a = attrs_checks(meta.attrs@, seq![]);
            let ghost ff = field_item(meta.fields@);
            proof {
                lemma_check_error_concat(tag + a, concat_upto(meta.fields@.len() as int, ff));
                lemma_check_error_concat(tag, a);
            }
            match validate_name(meta.tag.as_str(), "metadata tag") {
                Ok(()) => {},
                Err(e) => {
                    return Err(e);
                },
            }
            let reserved: [&str; 0] = [];
            proof {
                assert(str_views(reserved@) =~= seq![]);
            }
            match validate_attrs(&meta.attrs, &reserved) {
                Ok(()) => {},
                Err(e) => {
                    return Err(e);
                },
            }
            let mut i: usize = 0;
            while i < meta.fields.len()
                invariant
                    i <= meta.fields@.len(),
                    ff == field_item(meta.fields@),
                    check_error(concat_upto(i as int, ff)) is None,
                    check_error(concat_upto(meta.fields@.len() as int, ff)) is Some ==> check_error(
                        diagram_checks(*diagram),
                    ) == check_error(concat_upto(meta.fields@.len() as int, ff)),
                decreases meta.fields@.len() - i,
            {
                let field = &meta.fields[i];
                let ghost cs = ff(i as int);
                proof {
                    lemma_error_next(ff, i as int);
                    lemma_check_error_concat(seq![cs[0]], seq![cs[1]]);
                    assert(seq![cs[0]] + seq![cs[1]] =~= cs);
                    lemma_check_error_one(cs[0]);
                    lemma_check_error_one(cs[1]);
                }
                match validate_name(field.name.as_str(), "metadata field") {
                    Ok(()) => {},
                    Err(e) => {
                        proof {
                            lemma_error_at(ff, i as int, meta.fields@.len() as int);
                        }
                        return Err(e);
                    },
                }
                match validate_text(&field.value) {
                    Ok(()) => {},
                    Err(e) => {
                        proof {
                            lemma_error_at(ff, i as int, meta.fields@.len() as int);
                        }
                        return Err(e);
                    },
                }
                i = i + 1;
            }
        },
        None => {},
    }
    match validate_text(&diagram.title) {
        Ok(()) => {},
        Err(e) => {
            return Err(e);
        },
    }
    let mut count: usize = 0;
    let mut i: usize = 0;
    while i < diagram.blocks.len()
        invariant
            i <= diagram.blocks@.len(),
            bf == block_item(diagram.blocks@),
            bk == block_keyed_item(diagram.blocks@),
            check_error(concat_upto(i as int, bf)) is None,
            bs == concat_upto(diagram.blocks@.len() as int, bf),
            check_error(bs) is Some ==> check_error(diagram_checks(*diagram)) == check_error(bs),
            count == saturated(sum_upto(i as int, bk)),
        decreases diagram.blocks@.len() - i,
    {
        match validate_block(&diagram.blocks[i], count) {
            Ok(n) => {
                count = n;
                proof {
                    lemma_error_next(bf, i as int);
                }
            },
            Err(e) => {
                proof {
                    lemma_error_at(bf, i as int, diagram.blocks@.len() as int);
                }
                return Err(e);
            },
        }
        i = i + 1;
    }
    Ok(count)
}

} // verus!
