//! How a chosen pass becomes a diagram: block titles, instruction classes,
//! opcode text and the graph of MIR blocks.

use vstd::prelude::*;
use vstd::string::StringExecFns;

use std::collections::{BTreeMap, BTreeSet};

use crate::cli::data::{is_digit, LirBlock, MirBlock, Pass};
use crate::cli::err::CliErr;
use crate::first::first_index;
use crate::graph::{Flags, Graph, Id, Node, Size};
use crate::text::{decimal, push_char, push_decimal};

verus! {

/// Whether some attribute in `attrs` is `name`.
pub open spec fn has_attr(attrs: Seq<String>, name: Seq<char>) -> bool {
    exists|k: int| 0 <= k < attrs.len() && #[trigger] attrs[k]@ == name
}

/// Returns whether some attribute in `attrs` is `name`.
pub fn has(attrs: &[String], name: &str) -> (r: bool)
    ensures
        r == has_attr(attrs@, name@),
{
    let target = String::from_str(name);
    let mut k: usize = 0;
    while k < attrs.len()
        invariant
            k <= attrs@.len(),
            target@ == name@,
            forall|j: int| 0 <= j < k ==> attrs@[j]@ != name@,
        decreases attrs@.len() - k,
    {
        if attrs[k] == target {
            return true;
        }
        k = k + 1;
    }
    false
}

/// Whether the byte is an ASCII letter, digit or underscore.
pub open spec fn is_word_byte(b: u8) -> bool {
    (0x30 <= b <= 0x39) || (0x41 <= b <= 0x5A) || (0x61 <= b <= 0x7A) || b == 0x5F
}

/// Whether `c` is an ASCII letter, digit or underscore.
pub open spec fn is_word_char(c: char) -> bool {
    (c as u32) < 0x80 && is_word_byte((c as u32) as u8)
}

/// Returns whether the byte is an ASCII letter, digit or underscore.
pub fn word(byte: u8) -> (r: bool)
    ensures
        r == is_word_byte(byte),
{
    (0x30 <= byte && byte <= 0x39) || (0x41 <= byte && byte <= 0x5A) || (0x61 <= byte && byte
        <= 0x7A) || byte == 0x5F
}

/// ` name` if some attribute is `attr`, else nothing.
pub open spec fn class_part(attrs: Seq<String>, attr: Seq<char>, part: Seq<char>) -> Seq<char> {
    if has_attr(attrs, attr) {
        part
    } else {
        seq![]
    }
}

/// The SVG class of a MIR instruction with attributes `attrs`: `mir`, then
/// `movable`, `guard`, `recovered` and `worklist` for the attributes
/// `Movable`, `Guard`, `RecoveredOnBailout` and `InWorklist`.
pub open spec fn mir_class_of(attrs: Seq<String>) -> Seq<char> {
    "mir"@ + class_part(attrs, "Movable"@, " movable"@) + class_part(attrs, "Guard"@, " guard"@)
        + class_part(attrs, "RecoveredOnBailout"@, " recovered"@) + class_part(
        attrs,
        "InWorklist"@,
        " worklist"@,
    )
}

/// The SVG class of a MIR instruction with attributes `attrs`.
pub fn mir_class(attrs: &[String]) -> (r: String)
    ensures
        r@ == mir_class_of(attrs@),
{
    let mut class = String::from_str("mir");
    if has(attrs, "Movable") {
        class.append(" movable");
    }
    if has(attrs, "Guard") {
        class.append(" guard");
    }
    if has(attrs, "RecoveredOnBailout") {
        class.append(" recovered");
    }
    if has(attrs, "InWorklist") {
        class.append(" worklist");
    }
    assert(class@ =~= mir_class_of(attrs@));
    class
}

/// The title of a MIR block: its number, and what kind of block it is if
/// it is a loop header, a backedge or a split edge.
pub open spec fn block_title(b: MirBlock) -> Seq<char> {
    let a = b.attributes@;
    "Block "@ + decimal(b.id as nat) + if has_attr(a, "loopheader"@) {
        " (loop header)"@
    } else if has_attr(a, "backedge"@) {
        " (backedge)"@
    } else if has_attr(a, "splitedge"@) {
        " (split edge)"@
    } else {
        seq![]
    }
}

/// The title of a MIR block.
pub fn title(block: &MirBlock) -> (r: String)
    ensures
        r@ == block_title(*block),
{
    let mut t = String::from_str("Block ");
    push_decimal(&mut t, block.id);
    if has(&block.attributes, "loopheader") {
        t.append(" (loop header)");
    } else if has(&block.attributes, "backedge") {
        t.append(" (backedge)");
    } else if has(&block.attributes, "splitedge") {
        t.append(" (split edge)");
    }
    assert(t@ =~= block_title(*block));
    t
}

/// The characters of `s`.
fn chars_of(s: &str) -> (v: Vec<char>)
    ensures
        v@ == s@,
{
    let mut v: Vec<char> = Vec::new();
    let ghost whole = s@;
    for c in it: s.chars()
        invariant
            it.seq() == whole,
            v@ == whole.take(it.index() as int),
    {
        v.push(c);
        assert(v@ =~= whole.take(it.index() as int + 1));
    }
    assert(whole.take(whole.len() as int) =~= whole);
    v
}

/// The characters `v[from..to]` as a string.
fn string_of(v: &Vec<char>, from: usize, to: usize) -> (s: String)
    requires
        from <= to <= v@.len(),
    ensures
        s@ == v@.subrange(from as int, to as int),
{
    let mut s = String::new();
    let mut k = from;
    while k < to
        invariant
            from <= k <= to <= v@.len(),
            s@ == v@.subrange(from as int, k as int),
        decreases to - k,
    {
        push_char(&mut s, v[k]);
        k = k + 1;
        assert(s@ =~= v@.subrange(from as int, k as int));
    }
    s
}

/// Whether the two characters `pair` start at `i` in `s`.
pub open spec fn pair_at(s: Seq<char>, pair: (char, char), i: int) -> bool {
    0 <= i && i + 1 < s.len() && s[i] == pair.0 && s[i + 1] == pair.1
}

/// `s` with the first occurrence of the two characters `pair` replaced by
/// `rep`; `s` itself if they do not occur.
pub open spec fn replace_first(s: Seq<char>, pair: (char, char), rep: char) -> Seq<char> {
    match first_index(s.len() as int, |i: int| pair_at(s, pair, i)) {
        Some(i) => s.take(i) + seq![rep] + s.skip(i + 2),
        None => s,
    }
}

/// An opcode as it is shown: its first `->` becomes `→`, then the first
/// `<-` of the result becomes `←`.
pub open spec fn pretty_text(op: Seq<char>) -> Seq<char> {
    replace_first(replace_first(op, ('-', '>'), '→'), ('<', '-'), '←')
}

/// `v` with the first occurrence of `a` followed by `b` replaced by `rep`.
fn replace_pair(v: &Vec<char>, a: char, b: char, rep: char) -> (r: Vec<char>)
    ensures
        r@ == replace_first(v@, (a, b), rep),
{
    let ghost s = v@;
    let ghost bad = |i: int| pair_at(s, (a, b), i);
    let mut i: usize = 0;
    while i < v.len() && i + 1 < v.len() && !(v[i] == a && v[i + 1] == b)
        invariant
            i <= v@.len(),
            s == v@,
            bad == (|i: int| pair_at(s, (a, b), i)),
            forall|j: int| 0 <= j < i ==> !#[trigger] bad(j),
        decreases v@.len() - i,
    {
        i = i + 1;
    }
    if i < v.len() && i + 1 < v.len() {
        proof {
            crate::first::lemma_first_index(s.len() as int, bad, i as int);
        }
        let mut r: Vec<char> = Vec::new();
        let mut k: usize = 0;
        while k < i
            invariant
                k <= i < v@.len(),
                r@ == v@.take(k as int),
            decreases i - k,
        {
            r.push(v[k]);
            k = k + 1;
            assert(r@ =~= v@.take(k as int));
        }
        r.push(rep);
        let mut k: usize = i + 2;
        while k < v.len()
            invariant
                i + 2 <= k <= v@.len(),
                r@ == v@.take(i as int) + seq![rep] + v@.subrange(i + 2, k as int),
            decreases v@.len() - k,
        {
            r.push(v[k]);
            k = k + 1;
            assert(r@ =~= v@.take(i as int) + seq![rep] + v@.subrange(i + 2, k as int));
        }
        assert(v@.subrange(i + 2, v@.len() as int) =~= v@.skip(i + 2));
        r
    } else {
        proof {
            assert forall|j: int| #![trigger bad(j)] i <= j < s.len() implies !bad(j) by {
            }
            crate::first::lemma_first_index(s.len() as int, bad, s.len() as int);
        }
        let mut r: Vec<char> = Vec::new();
        let mut k: usize = 0;
        while k < v.len()
            invariant
                k <= v@.len(),
                r@ == v@.take(k as int),
            decreases v@.len() - k,
        {
            r.push(v[k]);
            k = k + 1;
            assert(r@ =~= v@.take(k as int));
        }
        assert(v@.take(v@.len() as int) =~= v@);
        r
    }
}

/// An opcode as it is shown: `->` becomes `→` and `<-` becomes `←`, each
/// at its first occurrence.
pub fn pretty(opcode: &str) -> (r: String)
    ensures
        r@ == pretty_text(opcode@),
{
    let v = chars_of(opcode);
    let once = replace_pair(&v, '-', '>', '→');
    let twice = replace_pair(&once, '<', '-', '←');
    string_of(&twice, 0, twice.len())
}

/// The end of the run of word characters (`digits` false) or decimal
/// digits (`digits` true) that starts at `i`.
pub open spec fn run_end(s: Seq<char>, i: int, digits: bool) -> int
    decreases s.len() - i,
{
    if 0 <= i < s.len() && (if digits {
        is_digit(s[i])
    } else {
        is_word_char(s[i])
    }) {
        run_end(s, i + 1, digits)
    } else {
        i
    }
}

/// A run ends at or after its start, and within the text.
pub proof fn lemma_run_end(s: Seq<char>, i: int, digits: bool)
    requires
        0 <= i <= s.len(),
    ensures
        i <= run_end(s, i, digits) <= s.len(),
    decreases s.len() - i,
{
    if i < s.len() && (if digits {
        is_digit(s[i])
    } else {
        is_word_char(s[i])
    }) {
        lemma_run_end(s, i + 1, digits);
    }
}

/// How an opcode splits into pieces, from `start` on with plain text
/// pending since `plain`: each piece is a character range and whether it
/// is a use reference, a word followed by `#` and decimal digits, such as
/// `v12#3`. The rest is plain text, and no piece is empty.
pub open spec fn pieces_from(s: Seq<char>, plain: int, start: int) -> Seq<(int, int, bool)>
    decreases s.len() - start,
{
    if start < 0 || start >= s.len() {
        if plain < s.len() {
            seq![(plain, s.len() as int, false)]
        } else {
            seq![]
        }
    } else if !is_word_char(s[start]) {
        pieces_from(s, plain, start + 1)
    } else {
        let hash = run_end(s, start, false);
        proof {
            lemma_run_end(s, start + 1, false);
        }
        if hash >= s.len() || s[hash] != '#' {
            pieces_from(s, plain, hash)
        } else {
            let end = run_end(s, hash + 1, true);
            proof {
                lemma_run_end(s, hash + 1, true);
            }
            if end == hash + 1 {
                pieces_from(s, plain, end)
            } else {
                (if plain < start {
                    seq![(plain, start, false)]
                } else {
                    seq![]
                }) + seq![(start, end, true)] + pieces_from(s, end, end)
            }
        }
    }
}

/// How an opcode splits into plain text and use references.
pub open spec fn pieces_of(s: Seq<char>) -> Seq<(int, int, bool)> {
    pieces_from(s, 0, 0)
}

/// The ranges of `p` follow each other without gap or overlap from `from` to
/// `to`, and none is empty.
pub open spec fn tiles(p: Seq<(int, int, bool)>, from: int, to: int) -> bool {
    &&& p.len() == 0 ==> from == to
    &&& p.len() > 0 ==> p[0].0 == from && p[p.len() - 1].1 == to
    &&& forall|i: int| 0 <= i < p.len() ==> (#[trigger] p[i]).0 < p[i].1
    &&& forall|i: int, j: int| #![trigger p[i], p[j]] 0 <= i && j == i + 1 && j < p.len() ==> p[i].1 == p[j].0
}

proof fn lemma_tiles_concat(a: Seq<(int, int, bool)>, b: Seq<(int, int, bool)>, x: int, y: int, z: int)
    requires
        tiles(a, x, y),
        tiles(b, y, z),
    ensures
        tiles(a + b, x, z),
{
    let c = a + b;
    assert forall|i: int| 0 <= i < c.len() implies (#[trigger] c[i]).0 < c[i].1 by {
        if i < a.len() {
            assert(c[i] == a[i]);
        } else {
            assert(c[i] == b[i - a.len()]);
        }
    }
    assert forall|i: int, j: int| #![trigger c[i], c[j]] 0 <= i && j == i + 1 && j < c.len() implies c[i].1 == c[j].0 by {
        if j < a.len() {
            assert(c[i] == a[i] && c[j] == a[j]);
        } else if i == a.len() - 1 {
            assert(c[i] == a[i] && c[j] == b[0]);
        } else {
            assert(c[i] == b[i - a.len()] && c[j] == b[j - a.len()]);
        }
    }
    if a.len() > 0 {
        assert(c[0] == a[0]);
    }
    if b.len() > 0 {
        assert(c[c.len() - 1] == b[b.len() - 1]);
    } else if a.len() > 0 {
        assert(c[c.len() - 1] == a[a.len() - 1]);
    }
}

proof fn lemma_pieces_from_tile(s: Seq<char>, plain: int, start: int)
    requires
        0 <= plain <= start <= s.len(),
    ensures
        tiles(pieces_from(s, plain, start), plain, s.len() as int),
    decreases s.len() - start,
{
    if start >= s.len() {
    } else if !is_word_char(s[start]) {
        lemma_pieces_from_tile(s, plain, start + 1);
    } else {
        let hash = run_end(s, start, false);
        lemma_run_end(s, start + 1, false);
        if hash >= s.len() || s[hash] != '#' {
            lemma_pieces_from_tile(s, plain, hash);
        } else {
            let end = run_end(s, hash + 1, true);
            lemma_run_end(s, hash + 1, true);
            if end == hash + 1 {
                lemma_pieces_from_tile(s, plain, end);
            } else {
                let head: Seq<(int, int, bool)> = if plain < start {
                    seq![(plain, start, false)]
                } else {
                    seq![]
                };
                let mid: Seq<(int, int, bool)> = seq![(start, end, true)];
                lemma_pieces_from_tile(s, end, end);
                assert(tiles(head, plain, start));
                assert(tiles(mid, start, end));
                lemma_tiles_concat(head, mid, plain, start, end);
                lemma_tiles_concat(head + mid, pieces_from(s, end, end), plain, end, s.len() as int);
            }
        }
    }
}

/// The pieces of an opcode make it up in order: each starts where the one
/// before it ends, the first at the start of the text and the last at its
/// end, and none is empty.
pub proof fn lemma_pieces_tile(s: Seq<char>)
    ensures
        tiles(pieces_of(s), 0, s.len() as int),
{
    lemma_pieces_from_tile(s, 0, 0);
}

/// Every character of `s` from `i` up to `j` belongs to the run.
pub open spec fn all_in_run(s: Seq<char>, i: int, j: int, digits: bool) -> bool {
    forall|k: int|
        i <= k < j ==> if digits {
            is_digit(#[trigger] s[k])
        } else {
            is_word_char(s[k])
        }
}

proof fn lemma_run_chars(s: Seq<char>, i: int, digits: bool)
    requires
        0 <= i <= s.len(),
    ensures
        all_in_run(s, i, run_end(s, i, digits), digits),
    decreases s.len() - i,
{
    if i < s.len() && (if digits {
        is_digit(s[i])
    } else {
        is_word_char(s[i])
    }) {
        lemma_run_chars(s, i + 1, digits);
    }
}

/// The text from `a` to `b` is a use reference: one or more word
/// characters, `#`, and one or more digits.
pub open spec fn use_ref_at(s: Seq<char>, a: int, b: int) -> bool {
    exists|h: int|
        a < h && h + 1 < b && #[trigger] s[h] == '#' && all_in_run(s, a, h, false) && all_in_run(s, h + 1, b, true)
}

/// The shape of a split: no two plain pieces follow each other, and every
/// use piece is a use reference.
pub open spec fn well_split(s: Seq<char>, p: Seq<(int, int, bool)>) -> bool {
    &&& forall|i: int| 0 <= i < p.len() && (#[trigger] p[i]).2 ==> use_ref_at(s, p[i].0, p[i].1)
    &&& forall|i: int, j: int| #![trigger p[i], p[j]] 0 <= i && j == i + 1 && j < p.len() ==> p[i].2 || p[j].2
}

proof fn lemma_pieces_from_shape(s: Seq<char>, plain: int, start: int)
    requires
        0 <= plain <= start <= s.len(),
    ensures
        well_split(s, pieces_from(s, plain, start)),
        pieces_from(s, plain, start).len() > 0 && !pieces_from(s, plain, start)[0].2 ==> pieces_from(s, plain, start)[0].0 == plain,
    decreases s.len() - start,
{
    if start >= s.len() {
    } else if !is_word_char(s[start]) {
        lemma_pieces_from_shape(s, plain, start + 1);
    } else {
        let hash = run_end(s, start, false);
        lemma_run_end(s, start + 1, false);
        if hash >= s.len() || s[hash] != '#' {
            lemma_pieces_from_shape(s, plain, hash);
        } else {
            let end = run_end(s, hash + 1, true);
            lemma_run_end(s, hash + 1, true);
            if end == hash + 1 {
                lemma_pieces_from_shape(s, plain, end);
            } else {
                lemma_pieces_from_shape(s, end, end);
                lemma_run_chars(s, start, false);
                lemma_run_chars(s, hash + 1, true);
                let head = if plain < start {
                    seq![(plain, start, false)]
                } else {
                    seq![]
                };
                let u = seq![(start, end, true)];
                let rest = pieces_from(s, end, end);
                let p = head + u + rest;
                assert(p == pieces_from(s, plain, start));
                assert(use_ref_at(s, start, end)) by {
                    assert(s[hash] == '#');
                }
                assert forall|i: int| 0 <= i < p.len() && (#[trigger] p[i]).2 implies use_ref_at(s, p[i].0, p[i].1) by {
                    if i < head.len() {
                        assert(p[i] == head[i]);
                    } else if i == head.len() {
                        assert(p[i] == u[0]);
                    } else {
                        assert(p[i] == rest[i - head.len() - 1]);
                    }
                }
                assert forall|i: int, j: int| #![trigger p[i], p[j]] 0 <= i && j == i + 1 && j < p.len() implies p[i].2 || p[j].2 by {
                    if j == head.len() {
                        assert(p[j] == u[0]);
                    } else if i == head.len() {
                        assert(p[i] == u[0]);
                    } else if i > head.len() {
                        assert(p[i] == rest[i - head.len() - 1]);
                        assert(p[j] == rest[j - head.len() - 1]);
                    }
                }
                if p.len() > 0 && !p[0].2 {
                    if head.len() == 0 {
                        assert(p[0] == u[0]);
                    } else {
                        assert(p[0] == head[0]);
                    }
                }
            }
        }
    }
}

/// Splitting an opcode never puts two plain pieces side by side, and every
/// use piece is one or more word characters, `#` and one or more digits.
pub proof fn lemma_pieces_shape(s: Seq<char>)
    ensures
        well_split(s, pieces_of(s)),
{
    lemma_pieces_from_shape(s, 0, 0);
}

/// A piece of opcode text.
#[derive(Debug)]
pub struct Piece {
    /// The text.
    pub text: String,
    /// Whether it is a use reference such as `v12#3`.
    pub use_ref: bool,
}

/// Whether `c` continues a run of word characters (`digits` false) or of
/// decimal digits (`digits` true).
fn in_run(c: char, digits: bool) -> (r: bool)
    ensures
        r == if digits {
            is_digit(c)
        } else {
            is_word_char(c)
        },
{
    let u = c as u32;
    if digits {
        0x30 <= u && u <= 0x39
    } else {
        u < 0x80 && word(u as u8)
    }
}

/// The end of the run of word characters or digits in `v` from `i`.
fn run_end_at(v: &Vec<char>, i: usize, digits: bool) -> (r: usize)
    requires
        i <= v@.len(),
    ensures
        r == run_end(v@, i as int, digits),
{
    let mut k = i;
    while k < v.len() && in_run(v[k], digits)
        invariant
            i <= k <= v@.len(),
            run_end(v@, i as int, digits) == run_end(v@, k as int, digits),
        decreases v@.len() - k,
    {
        k = k + 1;
    }
    k
}

/// Splits an opcode into plain text and use references, in order.
pub fn each_piece(text: &str) -> (r: Vec<Piece>)
    ensures
        r@.len() == pieces_of(text@).len(),
        forall|i: int|
            0 <= i < r@.len() ==> {
                let (a, b, u) = #[trigger] pieces_of(text@)[i];
                &&& 0 <= a <= b <= text@.len()
                &&& r@[i].text@ == text@.subrange(a, b)
                &&& r@[i].use_ref == u
            },
{
    let v = chars_of(text);
    let ghost s = v@;
    let mut out: Vec<Piece> = Vec::new();
    let ghost mut done: Seq<(int, int, bool)> = seq![];
    let mut plain: usize = 0;
    let mut start: usize = 0;
    while start < v.len()
        invariant
            s == v@,
            s == text@,
            plain <= start <= s.len(),
            done + pieces_from(s, plain as int, start as int) == pieces_of(s),
            out@.len() == done.len(),
            forall|i: int|
                0 <= i < done.len() ==> {
                    let (a, b, u) = #[trigger] done[i];
                    &&& 0 <= a <= b <= s.len()
                    &&& out@[i].text@ == s.subrange(a, b)
                    &&& out@[i].use_ref == u
                },
        decreases s.len() - start,
    {
        if !in_run(v[start], false) {
            start = start + 1;
            continue;
        }
        let hash = run_end_at(&v, start, false);
        proof {
            lemma_run_end(s, start as int + 1, false);
        }
        if hash == v.len() || v[hash] != '#' {
            start = hash;
            continue;
        }
        let end = run_end_at(&v, hash + 1, true);
        proof {
            lemma_run_end(s, hash + 1, true);
        }
        if end == hash + 1 {
            start = end;
            continue;
        }
        let ghost before = done;
        if plain < start {
            out.push(Piece { text: string_of(&v, plain, start), use_ref: false });
            proof {
                done = done.push((plain as int, start as int, false));
            }
        }
        out.push(Piece { text: string_of(&v, start, end), use_ref: true });
        proof {
            done = done.push((start as int, end as int, true));
            let head = if plain < start {
                seq![(plain as int, start as int, false)]
            } else {
                seq![]
            };
            assert(done =~= before + head + seq![(start as int, end as int, true)]);
        }
        plain = end;
        start = end;
    }
    if plain < v.len() {
        out.push(Piece { text: string_of(&v, plain, v.len()), use_ref: false });
        proof {
            done = done.push((plain as int, s.len() as int, false));
        }
    }
    assert(done =~= pieces_of(s));
    out
}

/// Whether `u64` keys are ordered as `BTreeMap` and `BTreeSet` expect.
pub open spec fn keys_ordered() -> bool {
    vstd::laws_cmp::obeys_cmp::<u64>()
}

/// Keys of type `u64` are ordered as `BTreeMap` and `BTreeSet` expect.
pub proof fn lemma_u64_keys()
    ensures
        keys_ordered(),
{
    broadcast use vstd::laws_cmp::group_laws_cmp;

}

/// Whether the `k`th MIR block has a null address, or repeats the number
/// or the address of an earlier block.
pub open spec fn mir_fault(b: Seq<MirBlock>, k: int) -> bool {
    ||| b[k].ptr == 0
    ||| exists|j: int| 0 <= j < k && #[trigger] b[j].id == b[k].id
    ||| exists|j: int| 0 <= j < k && #[trigger] b[j].ptr == b[k].ptr
}

/// The message for the fault of the `k`th MIR block.
pub open spec fn mir_fault_msg(b: Seq<MirBlock>, k: int) -> Seq<char> {
    if b[k].ptr == 0 {
        "MIR block "@ + decimal(b[k].id as nat) + " has a null ptr"@
    } else if exists|j: int| 0 <= j < k && #[trigger] b[j].id == b[k].id {
        "duplicate MIR block id "@ + decimal(b[k].id as nat)
    } else {
        "duplicate MIR block ptr "@ + decimal(b[k].ptr as nat)
    }
}

/// Whether the `k`th LIR block repeats the number or the address of an
/// earlier block.
pub open spec fn lir_fault(b: Seq<LirBlock>, k: int) -> bool {
    ||| exists|j: int| 0 <= j < k && #[trigger] b[j].id == b[k].id
    ||| exists|j: int| 0 <= j < k && #[trigger] b[j].ptr == b[k].ptr
}

/// The message for the fault of the `k`th LIR block.
pub open spec fn lir_fault_msg(b: Seq<LirBlock>, k: int) -> Seq<char> {
    if exists|j: int| 0 <= j < k && #[trigger] b[j].id == b[k].id {
        "duplicate LIR block id "@ + decimal(b[k].id as nat)
    } else {
        "duplicate LIR block ptr "@ + decimal(b[k].ptr as nat)
    }
}

/// The first fault of a pass's blocks: MIR blocks are checked first, in
/// order, then LIR blocks.
pub open spec fn blocks_error(p: Pass) -> Option<Seq<char>> {
    let m = p.mir.blocks@;
    let l = p.lir.blocks@;
    match first_index(m.len() as int, |k: int| mir_fault(m, k)) {
        Some(k) => Some(mir_fault_msg(m, k)),
        None => match first_index(l.len() as int, |k: int| lir_fault(l, k)) {
            Some(k) => Some(lir_fault_msg(l, k)),
            None => None,
        },
    }
}

/// The numbers of the first `n` MIR blocks.
pub open spec fn mir_ids(b: Seq<MirBlock>, n: int) -> Set<u64> {
    Set::new(|x: u64| exists|j: int| 0 <= j < n && #[trigger] b[j].id == x)
}

/// The addresses of the first `n` MIR blocks.
pub open spec fn mir_ptrs(b: Seq<MirBlock>, n: int) -> Set<u64> {
    Set::new(|x: u64| exists|j: int| 0 <= j < n && #[trigger] b[j].ptr == x)
}

/// The numbers of the first `n` LIR blocks.
pub open spec fn lir_ids(b: Seq<LirBlock>, n: int) -> Set<u64> {
    Set::new(|x: u64| exists|j: int| 0 <= j < n && #[trigger] b[j].id == x)
}

/// The addresses of the first `n` LIR blocks.
pub open spec fn lir_ptrs(b: Seq<LirBlock>, n: int) -> Set<u64> {
    Set::new(|x: u64| exists|j: int| 0 <= j < n && #[trigger] b[j].ptr == x)
}

/// `head` followed by the decimal numeral of `n`.
fn numbered(head: &str, n: u64) -> (s: String)
    ensures
        s@ == head@ + decimal(n as nat),
{
    let mut s = String::from_str(head);
    push_decimal(&mut s, n);
    s
}

/// Checks that MIR blocks have addresses and that no block number or
/// address repeats among MIR blocks or among LIR blocks. Returns where each
/// LIR block number is found among the LIR blocks.
pub fn validate_blocks(pass: &Pass) -> (r: Result<BTreeMap<u64, usize>, CliErr>)
    ensures
        match blocks_error(*pass) {
            Some(m) => r matches Err(e) && e@ == m,
            None => r matches Ok(map) && {
                let l = pass.lir.blocks@;
                &&& forall|k: int| 0 <= k < l.len() ==> map@.contains_key(#[trigger] l[k].id)
                    && map@[l[k].id] == k
                &&& forall|x: u64| #[trigger] map@.contains_key(x) ==> exists|k: int|
                    0 <= k < l.len() && l[k].id == x
            },
        },
{
    proof {
        lemma_u64_keys();
    }
    let ghost m = pass.mir.blocks@;
    let ghost l = pass.lir.blocks@;
    let ghost mbad = |k: int| mir_fault(m, k);
    let ghost lbad = |k: int| lir_fault(l, k);
    let mut ids: BTreeSet<u64> = BTreeSet::new();
    let mut ptrs: BTreeSet<u64> = BTreeSet::new();
    let blocks = &pass.mir.blocks;
    let mut k: usize = 0;
    while k < blocks.len()
        invariant
            blocks@ == m,
            m == pass.mir.blocks@,
            mbad == (|k: int| mir_fault(m, k)),
            keys_ordered(),
            k <= m.len(),
            ids@ == mir_ids(m, k as int),
            ptrs@ == mir_ptrs(m, k as int),
            forall|j: int| 0 <= j < k ==> !#[trigger] mbad(j),
        decreases m.len() - k,
    {
        let b = &blocks[k];
        if b.ptr == 0 {
            proof {
                crate::first::lemma_first_index(m.len() as int, mbad, k as int);
            }
            return Err(CliErr::new(numbered_around("MIR block ", b.id, " has a null ptr")));
        }
        if !ids.insert(b.id) {
            proof {
                let j = choose|j: int| 0 <= j < k && #[trigger] m[j].id == b.id;
                assert(mbad(k as int));
                crate::first::lemma_first_index(m.len() as int, mbad, k as int);
            }
            return Err(CliErr::new(numbered("duplicate MIR block id ", b.id)));
        }
        if !ptrs.insert(b.ptr) {
            proof {
                let j = choose|j: int| 0 <= j < k && #[trigger] m[j].ptr == b.ptr;
                assert(mbad(k as int));
                crate::first::lemma_first_index(m.len() as int, mbad, k as int);
                assert(!exists|j: int| 0 <= j < k && #[trigger] m[j].id == m[k as int].id);
            }
            return Err(CliErr::new(numbered("duplicate MIR block ptr ", b.ptr)));
        }
        proof {
            assert(!mbad(k as int));
            assert(ids@ =~= mir_ids(m, k as int + 1));
            assert(ptrs@ =~= mir_ptrs(m, k as int + 1));
        }
        k = k + 1;
    }
    proof {
        crate::first::lemma_first_index(m.len() as int, mbad, m.len() as int);
    }
    let mut map: BTreeMap<u64, usize> = BTreeMap::new();
    let mut lptrs: BTreeSet<u64> = BTreeSet::new();
    let lblocks = &pass.lir.blocks;
    let mut k: usize = 0;
    while k < lblocks.len()
        invariant
            lblocks@ == l,
            l == pass.lir.blocks@,
            lbad == (|k: int| lir_fault(l, k)),
            keys_ordered(),
            k <= l.len(),
            map@.dom() == lir_ids(l, k as int),
            forall|j: int| 0 <= j < k ==> #[trigger] map@[l[j].id] == j,
            lptrs@ == lir_ptrs(l, k as int),
            forall|j: int| 0 <= j < k ==> !#[trigger] lbad(j),
            m == pass.mir.blocks@,
            first_index(m.len() as int, |k: int| mir_fault(m, k)) is None,
        decreases l.len() - k,
    {
        let b = &lblocks[k];
        if map.insert(b.id, k).is_some() {
            proof {
                let j = choose|j: int| 0 <= j < k && #[trigger] l[j].id == b.id;
                assert(lbad(k as int));
                crate::first::lemma_first_index(l.len() as int, lbad, k as int);
            }
            return Err(CliErr::new(numbered("duplicate LIR block id ", b.id)));
        }
        if !lptrs.insert(b.ptr) {
            proof {
                let j = choose|j: int| 0 <= j < k && #[trigger] l[j].ptr == b.ptr;
                assert(lbad(k as int));
                crate::first::lemma_first_index(l.len() as int, lbad, k as int);
                assert(!exists|j: int| 0 <= j < k && #[trigger] l[j].id == l[k as int].id);
            }
            return Err(CliErr::new(numbered("duplicate LIR block ptr ", b.ptr)));
        }
        proof {
            assert(!lbad(k as int));
            assert(map@.dom() =~= lir_ids(l, k as int + 1));
            assert(lptrs@ =~= lir_ptrs(l, k as int + 1));
            assert forall|j: int| 0 <= j < k + 1 implies #[trigger] map@[l[j].id] == j by {
                if j < k {
                    assert(l[j].id != l[k as int].id);
                }
            }
        }
        k = k + 1;
    }
    proof {
        crate::first::lemma_first_index(l.len() as int, lbad, l.len() as int);
        assert forall|x: u64| #[trigger] map@.contains_key(x) implies exists|k: int|
            0 <= k < l.len() && l[k].id == x by {
            assert(lir_ids(l, l.len() as int).contains(x));
        }
        assert forall|k: int| 0 <= k < l.len() implies map@.contains_key(#[trigger] l[k].id) by {
            assert(lir_ids(l, l.len() as int).contains(l[k].id));
        }
    }
    Ok(map)
}

/// `head`, the decimal numeral of `n`, then `tail`.
fn numbered_around(head: &str, n: u64, tail: &str) -> (s: String)
    ensures
        s@ == head@ + decimal(n as nat) + tail@,
{
    let mut s = numbered(head, n);
    s.append(tail);
    s
}

/// The message for a MIR block that refers to a block nobody has.
pub open spec fn edge_msg(block: u64, kind: Seq<char>, edge: u64) -> Seq<char> {
    "MIR block "@ + decimal(block as nat) + " refers to unknown "@ + kind + " block "@ + decimal(
        edge as nat,
    )
}

/// Maps each block number in `targets` to its node through `ids`; the block
/// `block` refers to them as its `kind` (predecessor or successor).
pub fn edges(ids: &BTreeMap<u64, Id>, block: u64, kind: &str, targets: &[u64]) -> (r: Result<
    Vec<Id>,
    CliErr,
>)
    ensures
        match first_index(targets@.len() as int, |i: int| !ids@.contains_key(targets@[i])) {
            Some(i) => r matches Err(e) && e@ == edge_msg(block, kind@, targets@[i]),
            None => r matches Ok(v) && v@.len() == targets@.len() && forall|i: int|
                0 <= i < v@.len() ==> #[trigger] v@[i] == ids@[targets@[i]],
        },
{
    proof {
        lemma_u64_keys();
    }
    let ghost bad = |i: int| !ids@.contains_key(targets@[i]);
    let mut out: Vec<Id> = Vec::new();
    let mut i: usize = 0;
    while i < targets.len()
        invariant
            i <= targets@.len(),
            keys_ordered(),
            bad == (|i: int| !ids@.contains_key(targets@[i])),
            out@.len() == i,
            forall|j: int| 0 <= j < i ==> !#[trigger] bad(j),
            forall|j: int| 0 <= j < i ==> #[trigger] out@[j] == ids@[targets@[j]],
        decreases targets@.len() - i,
    {
        let edge = targets[i];
        match ids.get(&edge) {
            Some(id) => {
                out.push(*id);
            },
            None => {
                proof {
                    crate::first::lemma_first_index(targets@.len() as int, bad, i as int);
                }
                let mut msg = numbered_around("MIR block ", block, " refers to unknown ");
                msg.append(kind);
                msg.append(" block ");
                push_decimal(&mut msg, edge);
                return Err(CliErr::new(msg));
            },
        }
        i = i + 1;
    }
    proof {
        crate::first::lemma_first_index(targets@.len() as int, bad, targets@.len() as int);
    }
    Ok(out)
}

/// Whether some MIR block is numbered `id`.
pub open spec fn known(m: Seq<MirBlock>, id: u64) -> bool {
    exists|k: int| 0 <= k < m.len() && #[trigger] m[k].id == id
}

/// The position of the MIR block numbered `id`.
pub open spec fn position(m: Seq<MirBlock>, id: u64) -> int {
    choose|k: int| 0 <= k < m.len() && #[trigger] m[k].id == id
}

/// The first block number in `list` that no MIR block has.
pub open spec fn unknown_edge(m: Seq<MirBlock>, list: Seq<u64>) -> Option<u64> {
    match first_index(list.len() as int, |i: int| !known(m, list[i])) {
        Some(i) => Some(list[i]),
        None => None,
    }
}

/// Whether the `k`th MIR block refers to a block nobody has.
pub open spec fn edge_fault(m: Seq<MirBlock>, k: int) -> bool {
    unknown_edge(m, m[k].predecessors@) is Some || unknown_edge(m, m[k].successors@) is Some
}

/// The message for the first MIR block that refers to a block nobody has:
/// its predecessors are checked before its successors.
pub open spec fn edge_error(m: Seq<MirBlock>) -> Option<Seq<char>> {
    match first_index(m.len() as int, |k: int| edge_fault(m, k)) {
        Some(k) => match unknown_edge(m, m[k].predecessors@) {
            Some(e) => Some(edge_msg(m[k].id, "predecessor"@, e)),
            None => Some(
                edge_msg(m[k].id, "successor"@, unknown_edge(m, m[k].successors@)->0),
            ),
        },
        None => None,
    }
}

/// `f` with `bit` added when `on`.
pub open spec fn with_flag(f: u8, on: bool, bit: u8) -> u8 {
    if on {
        f | bit
    } else {
        f
    }
}

/// The layout roles of a MIR block: loop header, backedge and OSR entry
/// from its `loopheader`, `backedge` and `osr` attributes.
pub open spec fn mir_flags(b: MirBlock) -> u8 {
    let a = b.attributes@;
    with_flag(
        with_flag(with_flag(0, has_attr(a, "loopheader"@), 1), has_attr(a, "backedge"@), 2),
        has_attr(a, "osr"@),
        4,
    )
}

/// The nodes that the block numbers in `list` become.
pub open spec fn node_ids(m: Seq<MirBlock>, list: Seq<u64>) -> Seq<Id> {
    Seq::new(list.len(), |i: int| Id(position(m, list[i]) as usize))
}

/// Whether `n` is the layout node of the `k`th MIR block: empty size, the
/// block's depth and roles, and its predecessors and successors as nodes.
pub open spec fn built_node(m: Seq<MirBlock>, k: int, n: Node) -> bool {
    &&& n.size == Size { w: 0, h: 0 }
    &&& n.depth == m[k].depth
    &&& n.flags.0 == mir_flags(m[k])
    &&& n.preds@ == node_ids(m, m[k].predecessors@)
    &&& n.succs@ == node_ids(m, m[k].successors@)
}

/// In a graph built from MIR blocks `m`, node `k` carries the loop depth of
/// the `k`th block and starts with no size; it has as many successors and
/// predecessors as the block lists.
pub proof fn lemma_built_depths(m: Seq<MirBlock>, g: Seq<Node>)
    requires
        g.len() == m.len(),
        forall|k: int| 0 <= k < m.len() ==> built_node(m, k, #[trigger] g[k]),
    ensures
        forall|k: int|
            0 <= k < m.len() ==> {
                &&& (#[trigger] g[k]).depth == m[k].depth
                &&& g[k].size.w == 0 && g[k].size.h == 0
                &&& g[k].succs@.len() == m[k].successors@.len()
                &&& g[k].preds@.len() == m[k].predecessors@.len()
            },
{
    assert forall|k: int| 0 <= k < m.len() implies {
        &&& (#[trigger] g[k]).depth == m[k].depth
        &&& g[k].size.w == 0 && g[k].size.h == 0
        &&& g[k].succs@.len() == m[k].successors@.len()
        &&& g[k].preds@.len() == m[k].predecessors@.len()
    } by {
        assert(built_node(m, k, g[k]));
    }
}

/// Builds the layout graph of a pass: one node per MIR block, in order,
/// linked as the blocks' predecessor and successor lists say. Also returns
/// where each LIR block number is found among the LIR blocks.
pub fn build_graph(pass: &Pass) -> (r: Result<(Graph, BTreeMap<u64, usize>), CliErr>)
    ensures
        match blocks_error(*pass) {
            Some(msg) => r matches Err(e) && e@ == msg,
            None => match edge_error(pass.mir.blocks@) {
                Some(msg) => r matches Err(e) && e@ == msg,
                None => r matches Ok((g, lir)) && {
                    let m = pass.mir.blocks@;
                    let l = pass.lir.blocks@;
                    &&& g@.len() == m.len()
                    &&& forall|k: int| 0 <= k < m.len() ==> built_node(m, k, #[trigger] g@[k])
                    &&& forall|k: int|
                        0 <= k < l.len() ==> lir@.contains_key(#[trigger] l[k].id) && lir@[l[k].id]
                            == k
                    &&& forall|x: u64| #[trigger] lir@.contains_key(x) ==> exists|k: int|
                        0 <= k < l.len() && l[k].id == x
                },
            },
        },
{
    proof {
        lemma_u64_keys();
    }
    let lir = match validate_blocks(pass) {
        Ok(lir) => lir,
        Err(e) => {
            return Err(e);
        },
    };
    let ghost m = pass.mir.blocks@;
    proof {
        let bad = |k: int| mir_fault(m, k);
        crate::first::lemma_first_index_none(m.len() as int, bad);
        assert forall|a: int, b: int| 0 <= a < b < m.len() implies m[a].id != m[b].id by {
            assert(!bad(b));
        }
    }
    let blocks = &pass.mir.blocks;
    let mut graph = Graph::new();
    let mut ids: BTreeMap<u64, Id> = BTreeMap::new();
    let mut k: usize = 0;
    while k < blocks.len()
        invariant
            blocks@ == m,
            keys_ordered(),
            k <= m.len(),
            forall|a: int, b: int| 0 <= a < b < m.len() ==> m[a].id != m[b].id,
            graph@.len() == k,
            forall|j: int|
                0 <= j < k ==> {
                    let n = #[trigger] graph@[j];
                    &&& n.size == Size { w: 0, h: 0 }
                    &&& n.depth == m[j].depth
                    &&& n.flags.0 == mir_flags(m[j])
                    &&& n.preds@.len() == 0
                    &&& n.succs@.len() == 0
                },
            ids@.dom() == mir_ids(m, k as int),
            forall|j: int| 0 <= j < k ==> #[trigger] ids@[m[j].id] == Id(j as usize),
        decreases m.len() - k,
    {
        let mir = &blocks[k];
        let mut node = Node::new(Size::default());
        node.depth = mir.depth;
        if has(&mir.attributes, "loopheader") {
            node.flags = node.flags | Flags::header();
        }
        if has(&mir.attributes, "backedge") {
            node.flags = node.flags | Flags::backedge();
        }
        if has(&mir.attributes, "osr") {
            node.flags = node.flags | Flags::osr();
        }
        let id = graph.add(node);
        ids.insert(mir.id, id);
        proof {
            assert(ids@.dom() =~= mir_ids(m, k as int + 1));
            assert forall|j: int| 0 <= j < k + 1 implies #[trigger] ids@[m[j].id] == Id(
                j as usize,
            ) by {
                if j < k {
                    assert(m[j].id != m[k as int].id);
                }
            }
        }
        k = k + 1;
    }
    proof {
        assert forall|x: u64| ids@.contains_key(x) <==> known(m, x) by {
            if ids@.contains_key(x) {
                assert(mir_ids(m, m.len() as int).contains(x));
            }
        }
        assert forall|j: int| 0 <= j < m.len() implies position(m, #[trigger] m[j].id) == j by {
            let p = position(m, m[j].id);
            assert(0 <= p < m.len() && m[p].id == m[j].id);
        }
    }
    let ghost fault = |k: int| edge_fault(m, k);
    let mut k: usize = 0;
    while k < blocks.len()
        invariant
            blocks@ == m,
            m == pass.mir.blocks@,
            keys_ordered(),
            k <= m.len(),
            fault == (|k: int| edge_fault(m, k)),
            forall|x: u64| ids@.contains_key(x) <==> known(m, x),
            forall|j: int| 0 <= j < m.len() ==> #[trigger] ids@[m[j].id] == Id(j as usize),
            forall|j: int| 0 <= j < m.len() ==> position(m, #[trigger] m[j].id) == j,
            forall|j: int| 0 <= j < k ==> !#[trigger] fault(j),
            graph@.len() == m.len(),
            forall|j: int|
                0 <= j < m.len() ==> {
                    let n = #[trigger] graph@[j];
                    &&& n.size == Size { w: 0, h: 0 }
                    &&& n.depth == m[j].depth
                    &&& n.flags.0 == mir_flags(m[j])
                    &&& j < k ==> n.preds@ == node_ids(m, m[j].predecessors@)
                    &&& j < k ==> n.succs@ == node_ids(m, m[j].successors@)
                },
            blocks_error(*pass) is None,
        decreases m.len() - k,
    {
        let mir = &blocks[k];
        let ghost preds_bad = |i: int| !ids@.contains_key(mir.predecessors@[i]);
        let ghost succs_bad = |i: int| !ids@.contains_key(mir.successors@[i]);
        proof {
            let p = mir.predecessors@;
            let s = mir.successors@;
            crate::first::lemma_first_index_agree(
                p.len() as int,
                preds_bad,
                |i: int| !known(m, p[i]),
            );
            crate::first::lemma_first_index_agree(
                s.len() as int,
                succs_bad,
                |i: int| !known(m, s[i]),
            );
        }
        let preds = match edges(&ids, mir.id, "predecessor", &mir.predecessors) {
            Ok(v) => v,
            Err(e) => {
                proof {
                    crate::first::lemma_first_index(m.len() as int, fault, k as int);
                }
                return Err(e);
            },
        };
        let succs = match edges(&ids, mir.id, "successor", &mir.successors) {
            Ok(v) => v,
            Err(e) => {
                proof {
                    crate::first::lemma_first_index(m.len() as int, fault, k as int);
                }
                return Err(e);
            },
        };
        proof {
            assert(preds@ =~= node_ids(m, m[k as int].predecessors@)) by {
                assert forall|i: int| 0 <= i < preds@.len() implies preds@[i] == node_ids(
                    m,
                    m[k as int].predecessors@,
                )[i] by {
                    let e = m[k as int].predecessors@[i];
                    crate::first::lemma_first_index_none(m[k as int].predecessors@.len() as int, preds_bad);
                    assert(!preds_bad(i));
                    assert(known(m, e));
                    let p = position(m, e);
                    assert(0 <= p < m.len() && m[p].id == e);
                }
            }
            assert(succs@ =~= node_ids(m, m[k as int].successors@)) by {
                assert forall|i: int| 0 <= i < succs@.len() implies succs@[i] == node_ids(
                    m,
                    m[k as int].successors@,
                )[i] by {
                    let e = m[k as int].successors@[i];
                    crate::first::lemma_first_index_none(m[k as int].successors@.len() as int, succs_bad);
                    assert(!succs_bad(i));
                    assert(known(m, e));
                    let p = position(m, e);
                    assert(0 <= p < m.len() && m[p].id == e);
                }
            }
        }
        let node = graph.node_mut(Id(k));
        node.preds = preds;
        node.succs = succs;
        k = k + 1;
    }
    proof {
        crate::first::lemma_first_index(m.len() as int, fault, m.len() as int);
    }
    Ok((graph, lir))
}

} // verus!
