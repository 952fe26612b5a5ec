//! Ion data as the command line reads it, and the choice of one function
//! and one of its compiler passes.

use vstd::prelude::*;
use vstd::string::StringExecFns;

use std::collections::BTreeMap;

use crate::cli::draw::{keys_ordered, lemma_u64_keys};
use crate::cli::err::CliErr;
use crate::first::first_index;
use crate::opts::{finite, is_finite, is_negative, negative};
use crate::text::{debug_quoted, decimal, normalized, push_char, push_decimal, quoted, xml_allowed};

verus! {

/// An Ion graph file: the compiled functions.
#[derive(Debug)]
pub struct Ion {
    /// Functions in file order.
    pub functions: Vec<Func>,
}

/// A compiled function and the passes recorded for it.
#[derive(Debug)]
pub struct Func {
    /// Function name.
    pub name: String,
    /// Passes in compilation order.
    pub passes: Vec<Pass>,
}

/// The MIR and LIR graphs after one compiler pass.
#[derive(Debug)]
pub struct Pass {
    /// Pass name.
    pub name: String,
    /// MIR graph.
    pub mir: Mir,
    /// LIR graph.
    pub lir: Lir,
}

/// A MIR graph.
#[derive(Debug)]
pub struct Mir {
    /// Blocks in file order.
    pub blocks: Vec<MirBlock>,
}

/// A LIR graph.
#[derive(Debug)]
pub struct Lir {
    /// Blocks in file order.
    pub blocks: Vec<LirBlock>,
}

/// A MIR basic block.
#[derive(Debug)]
pub struct MirBlock {
    /// Address of the block in the compiler.
    pub ptr: u64,
    /// Block number.
    pub id: u64,
    /// Loop nesting depth.
    pub depth: usize,
    /// Block attributes such as `loopheader` or `backedge`.
    pub attributes: Vec<String>,
    /// Predecessor block numbers.
    pub predecessors: Vec<u64>,
    /// Successor block numbers.
    pub successors: Vec<u64>,
    /// Instructions in block order.
    pub instructions: Vec<MirIns>,
}

/// A MIR instruction.
#[derive(Debug)]
pub struct MirIns {
    /// Address of the instruction in the compiler.
    pub ptr: u64,
    /// Instruction number.
    pub id: u64,
    /// Opcode text, with characters XML cannot represent replaced.
    pub opcode: String,
    /// Instruction attributes such as `Movable` or `Guard`.
    pub attributes: Vec<String>,
    /// Result type text, with characters XML cannot represent replaced.
    pub ty: String,
}

/// A LIR basic block.
#[derive(Debug)]
pub struct LirBlock {
    /// Address of the block in the compiler.
    pub ptr: u64,
    /// Block number, shared with its MIR block.
    pub id: u64,
    /// Instructions in block order.
    pub instructions: Vec<LirIns>,
}

/// A LIR instruction.
#[derive(Debug)]
pub struct LirIns {
    /// Address of the instruction in the compiler.
    pub ptr: u64,
    /// Instruction number.
    pub id: u64,
    /// Address of the MIR instruction it was lowered from, if any.
    pub mir_ptr: Option<u64>,
    /// Opcode text, with characters XML cannot represent replaced.
    pub opcode: String,
}

/// The function and pass chosen for drawing.
#[derive(Debug)]
pub struct Sel {
    /// Name of the chosen function.
    pub func_name: String,
    /// The chosen pass.
    pub pass: Pass,
    /// Zero-based index of the function.
    pub func_idx: usize,
    /// Zero-based index of the pass within its function.
    pub pass_idx: usize,
}

/// Whether `c` is an ASCII decimal digit.
pub open spec fn is_digit(c: char) -> bool {
    0x30 <= (c as u32) <= 0x39
}

/// The value of a run of decimal digits.
pub open spec fn digits_value(d: Seq<char>) -> nat
    decreases d.len(),
{
    if d.len() == 0 {
        0
    } else {
        digits_value(d.drop_last()) * 10 + ((d.last() as u32) - 0x30) as nat
    }
}

/// `s` without a leading `+`.
pub open spec fn sign_dropped(s: Seq<char>) -> Seq<char> {
    if s.len() > 0 && s[0] == '+' {
        s.drop_first()
    } else {
        s
    }
}

/// The unsigned integer that `s` writes, as `usize::from_str` reads one: an
/// optional `+` and at least one decimal digit, with a value that fits in a
/// `usize`.
pub open spec fn index_value(s: Seq<char>) -> Option<nat> {
    let d = sign_dropped(s);
    if d.len() > 0 && (forall|i: int| 0 <= i < d.len() ==> is_digit(#[trigger] d[i]))
        && digits_value(d) <= usize::MAX {
        Some(digits_value(d))
    } else {
        None
    }
}

/// Whether the `k`th name is `value`.
pub open spec fn names_at(names: Seq<Seq<char>>, value: Seq<char>, k: int) -> bool {
    0 <= k < names.len() && names[k] == value
}

/// What choosing by `value` among `names` gives: an index written as a
/// number, which must be in range; otherwise the one item so named. `kind`
/// says what the items are in the error message.
pub open spec fn picked(names: Seq<Seq<char>>, value: Seq<char>, kind: Seq<char>) -> Result<
    nat,
    Seq<char>,
> {
    match index_value(value) {
        Some(i) => if i < names.len() {
            Ok(i)
        } else {
            Err(
                kind + " index "@ + decimal(i) + " is out of range; found "@ + decimal(names.len())
                    + " "@ + kind + "s"@,
            )
        },
        None => if !exists|k: int| names_at(names, value, k) {
            Err("no "@ + kind + " is named "@ + debug_quoted(value))
        } else if exists|j: int, k: int|
            j < k && names_at(names, value, j) && names_at(names, value, k) {
            Err(kind + " name "@ + debug_quoted(value) + " is ambiguous; use its zero-based index"@)
        } else {
            Ok((choose|k: int| names_at(names, value, k)) as nat)
        },
    }
}

/// The views of `v`'s strings.
pub open spec fn views(v: Seq<String>) -> Seq<Seq<char>> {
    Seq::new(v.len(), |i: int| v[i]@)
}

/// Reads `s` as `usize::from_str` does.
fn parse_index(s: &str) -> (r: Option<usize>)
    ensures
        r matches Some(i) ==> index_value(s@) == Some(i as nat),
        r is None ==> index_value(s@) is None,
{
    let ghost whole = s@;
    let ghost d = sign_dropped(whole);
    let mut acc: Option<usize> = Some(0);
    let ghost mut digits: int = 0;
    let mut any_digit = false;
    let mut all_digits = true;
    let ghost mut signed = false;
    let mut first = true;
    for c in it: s.chars()
        invariant
            it.seq() == whole,
            first == (it.index() == 0),
            signed == (it.index() > 0 && whole[0] == '+'),
            digits == it.index() - (if signed { 1int } else { 0int }),
            0 <= digits <= it.index(),
            any_digit == (digits > 0),
            all_digits == (forall|i: int| 0 <= i < digits ==> is_digit(#[trigger] d[i])),
            d == sign_dropped(whole),
            all_digits ==> match acc {
                Some(v) => v as nat == digits_value(d.take(digits)),
                None => digits_value(d.take(digits)) > usize::MAX,
            },
    {
        if first && c == '+' {
            proof {
                signed = true;
            }
        } else {
            let ghost pre = d.take(digits);
            assert(d[digits] == c);
            assert(d.take(digits + 1).drop_last() =~= pre);
            let u = c as u32;
            if 0x30 <= u && u <= 0x39 {
                let n = (u - 0x30) as usize;
                acc = match acc {
                    Some(v) => match v.checked_mul(10) {
                        Some(w) => w.checked_add(n),
                        None => None,
                    },
                    None => None,
                };
            } else {
                all_digits = false;
            }
            proof {
                digits = digits + 1;
            }
            any_digit = true;
        }
        first = false;
    }
    assert(d.take(digits) =~= d);
    if all_digits && any_digit {
        acc
    } else {
        proof {
            if !all_digits {
                let i = choose|i: int| 0 <= i < digits && !is_digit(#[trigger] d[i]);
                assert(!is_digit(d[i]));
            }
        }
        None
    }
}

/// Chooses among items named `names` by `value`: a zero-based index, or
/// else the name of exactly one item. `kind` says what the items are.
pub fn pick(names: &[String], value: &str, kind: &str) -> (r: Result<usize, CliErr>)
    ensures
        match r {
            Ok(i) => picked(views(names@), value@, kind@) == Ok::<nat, Seq<char>>(i as nat),
            Err(e) => picked(views(names@), value@, kind@) == Err::<nat, Seq<char>>(e@),
        },
{
    let ghost ns = views(names@);
    match parse_index(value) {
        Some(index) => {
            if index < names.len() {
                Ok(index)
            } else {
                let mut msg = String::from_str(kind);
                msg.append(" index ");
                push_decimal(&mut msg, index as u64);
                msg.append(" is out of range; found ");
                push_decimal(&mut msg, names.len() as u64);
                msg.append(" ");
                msg.append(kind);
                msg.append("s");
                assert((index as u64) as nat == index as nat);
                assert((names.len() as u64) as nat == ns.len());
                Err(CliErr::new(msg))
            }
        },
        None => {
            let target = String::from_str(value);
            let mut found: Option<usize> = None;
            let mut k: usize = 0;
            while k < names.len()
                invariant
                    k <= names@.len(),
                    ns == views(names@),
                    target@ == value@,
                    index_value(value@) is None,
                    match found {
                        None => forall|j: int| 0 <= j < k ==> !names_at(ns, value@, j),
                        Some(f) => f < k && names_at(ns, value@, f as int) && forall|j: int|
                            0 <= j < k && j != f ==> !names_at(ns, value@, j),
                    },
                decreases names@.len() - k,
            {
                if names[k] == target {
                    if found.is_some() {
                        let mut msg = String::from_str(kind);
                        msg.append(" name ");
                        let q = quoted(value);
                        msg.append(q.as_str());
                        msg.append(" is ambiguous; use its zero-based index");
                        assert(names_at(ns, value@, k as int));
                        assert(picked(ns, value@, kind@) == Err::<nat, Seq<char>>(msg@)) by {
                            let f = found.unwrap() as int;
                            assert(names_at(ns, value@, f) && f < k);
                        }
                        return Err(CliErr::new(msg));
                    }
                    found = Some(k);
                }
                k = k + 1;
            }
            match found {
                Some(f) => {
                    assert(names_at(ns, value@, f as int));
                    assert(!exists|j: int, l: int|
                        j < l && names_at(ns, value@, j) && names_at(ns, value@, l));
                    Ok(f)
                },
                None => {
                    let mut msg = String::from_str("no ");
                    msg.append(kind);
                    msg.append(" is named ");
                    let q = quoted(value);
                    msg.append(q.as_str());
                    Err(CliErr::new(msg))
                },
            }
        },
    }
}

/// The names of functions.
pub open spec fn function_names(fs: Seq<Func>) -> Seq<Seq<char>> {
    Seq::new(fs.len(), |i: int| fs[i].name@)
}

/// The names of passes.
pub open spec fn pass_names(ps: Seq<Pass>) -> Seq<Seq<char>> {
    Seq::new(ps.len(), |i: int| ps[i].name@)
}

/// The names of `v`'s functions, in order.
fn names_of_functions(v: &Vec<Func>) -> (names: Vec<String>)
    ensures
        views(names@) == function_names(v@),
{
    let mut names: Vec<String> = Vec::new();
    for i in 0..v.len()
        invariant
            names@.len() == i,
            forall|j: int| 0 <= j < i ==> #[trigger] names@[j]@ == v@[j].name@,
    {
        names.push(v[i].name.clone());
    }
    assert(views(names@) =~= function_names(v@));
    names
}

/// The names of `v`'s passes, in order.
fn names_of_passes(v: &Vec<Pass>) -> (names: Vec<String>)
    ensures
        views(names@) == pass_names(v@),
{
    let mut names: Vec<String> = Vec::new();
    for i in 0..v.len()
        invariant
            names@.len() == i,
            forall|j: int| 0 <= j < i ==> #[trigger] names@[j]@ == v@[j].name@,
    {
        names.push(v[i].name.clone());
    }
    assert(views(names@) =~= pass_names(v@));
    names
}

/// Chooses a function of `ion` by `func` and one of its passes by `pass`,
/// each a zero-based index or a unique name.
pub fn select(ion: Ion, func: &str, pass: &str) -> (r: Result<Sel, CliErr>)
    ensures
        match picked(function_names(ion.functions@), func@, "function"@) {
            Err(m) => r matches Err(e) && e@ == m,
            Ok(fi) => {
                let f = ion.functions@[fi as int];
                match picked(pass_names(f.passes@), pass@, "pass"@) {
                    Err(m) => r matches Err(e) && e@ == m,
                    Ok(pi) => r matches Ok(sel) && sel.func_idx == fi && sel.pass_idx == pi
                        && sel.func_name == f.name && sel.pass == f.passes@[pi as int],
                }
            },
        },
{
    let mut functions = ion.functions;
    let names = names_of_functions(&functions);
    let func_idx = match pick(&names, func, "function") {
        Ok(i) => i,
        Err(e) => {
            return Err(e);
        },
    };
    let chosen = functions.swap_remove(func_idx);
    let Func { name: func_name, passes } = chosen;
    let mut passes = passes;
    let pass_names = names_of_passes(&passes);
    let pass_idx = match pick(&pass_names, pass, "pass") {
        Ok(i) => i,
        Err(e) => {
            return Err(e);
        },
    };
    let pass = passes.swap_remove(pass_idx);
    Ok(Sel { func_name, pass, func_idx, pass_idx })
}

/// Returns whether XML can represent `ch`.
pub fn is_xml_char(ch: char) -> (r: bool)
    ensures
        r == xml_allowed(ch),
{
    let u = ch as u32;
    u == 0x9 || u == 0xA || u == 0xD || (0x20 <= u && u <= 0xD7FF) || (0xE000 <= u && u
        <= 0xFFFD) || (0x10000 <= u && u <= 0x10FFFF)
}

/// Text read from Ion data, with each character XML cannot represent
/// replaced by U+FFFD.
pub fn xml_text(text: &str) -> (r: String)
    ensures
        r@ == normalized(text@),
{
    let mut out = String::new();
    let ghost whole = text@;
    for c in it: text.chars()
        invariant
            it.seq() == whole,
            out@ == normalized(whole.take(it.index() as int)),
    {
        let r = if is_xml_char(c) {
            c
        } else {
            '\u{FFFD}'
        };
        push_char(&mut out, r);
        assert(normalized(whole.take(it.index() as int + 1)) =~= out@);
    }
    assert(whole.take(whole.len() as int) =~= whole);
    out
}

/// Sample counts of one instruction; each is the bit pattern of an `f64`.
#[derive(Clone, Copy, Debug, PartialEq, Eq, Structural)]
pub struct Counts {
    /// Samples in the instruction and everything it calls.
    pub total: u64,
    /// Samples in the instruction itself.
    pub self_count: u64,
}

impl Default for Counts {
    /// No samples.
    fn default() -> (c: Counts)
        ensures
            c == (Counts { total: 0, self_count: 0 }),
    {
        Counts { total: 0, self_count: 0 }
    }
}

/// Sample counts by instruction number.
#[derive(Debug)]
pub struct Samples {
    /// Counts of each instruction that has samples.
    pub counts: BTreeMap<u64, Counts>,
}

/// The counts of instruction `id`: none if it has no entry.
pub open spec fn counts_of(m: Map<u64, Counts>, id: u64) -> Counts {
    if m.contains_key(id) {
        m[id]
    } else {
        Counts { total: 0, self_count: 0 }
    }
}

impl Samples {
    /// The counts of instruction `id`, zero if it has none.
    pub fn get(&self, id: u64) -> (c: Counts)
        ensures
            c == counts_of(self.counts@, id),
    {
        proof {
            lemma_u64_keys();
        }
        match self.counts.get(&id) {
            Some(c) => *c,
            None => Counts { total: 0, self_count: 0 },
        }
    }
}

/// `c` with its total (or, with `self_count`, its self count) set to `v`.
pub open spec fn with_count(c: Counts, v: u64, self_count: bool) -> Counts {
    if self_count {
        Counts { self_count: v, ..c }
    } else {
        Counts { total: v, ..c }
    }
}

/// `m` after recording the first `k` pairs of instruction number and count
/// bit pattern, in order.
pub open spec fn recorded(m: Map<u64, Counts>, pairs: Seq<(u64, u64)>, self_count: bool, k: int) -> Map<
    u64,
    Counts,
>
    decreases k,
{
    if k <= 0 {
        m
    } else {
        let prev = recorded(m, pairs, self_count, k - 1);
        let (id, v) = pairs[k - 1];
        prev.insert(id, with_count(counts_of(prev, id), v, self_count))
    }
}

/// Whether the `i`th pair's count is not a finite, non-negative number.
pub open spec fn bad_count(pairs: Seq<(u64, u64)>, i: int) -> bool {
    !(is_finite(pairs[i].1) && !is_negative(pairs[i].1))
}

/// The message for a count that is not finite and non-negative.
pub open spec fn count_msg(name: Seq<char>, id: u64) -> Seq<char> {
    name + " count for instruction "@ + decimal(id as nat) + " must be finite and non-negative"@
}

/// Records each pair of instruction number and count bit pattern in order,
/// as the total or, with `self_count`, as the self count; `name` names the
/// list. Stops at the first count that is not finite and non-negative.
pub fn add_counts(
    name: &str,
    pairs: Vec<(u64, u64)>,
    counts: &mut BTreeMap<u64, Counts>,
    self_count: bool,
) -> (r: Result<(), CliErr>)
    ensures
        match first_index(pairs@.len() as int, |i: int| bad_count(pairs@, i)) {
            Some(i) => r matches Err(e) && e@ == count_msg(name@, pairs@[i].0) && final(counts)@
                == recorded(old(counts)@, pairs@, self_count, i),
            None => r is Ok && final(counts)@ == recorded(
                old(counts)@,
                pairs@,
                self_count,
                pairs@.len() as int,
            ),
        },
{
    proof {
        lemma_u64_keys();
    }
    let ghost start = counts@;
    let ghost bad = |i: int| bad_count(pairs@, i);
    let mut i: usize = 0;
    while i < pairs.len()
        invariant
            i <= pairs@.len(),
            keys_ordered(),
            bad == (|i: int| bad_count(pairs@, i)),
            forall|j: int| 0 <= j < i ==> !#[trigger] bad(j),
            counts@ == recorded(start, pairs@, self_count, i as int),
            start == old(counts)@,
        decreases pairs@.len() - i,
    {
        let (id, v) = pairs[i];
        if !(finite(v) && !negative(v)) {
            proof {
                crate::first::lemma_first_index(pairs@.len() as int, bad, i as int);
            }
            let mut msg = String::from_str(name);
            msg.append(" count for instruction ");
            push_decimal(&mut msg, id);
            msg.append(" must be finite and non-negative");
            return Err(CliErr::new(msg));
        }
        let old_counts = match counts.get(&id) {
            Some(c) => *c,
            None => Counts { total: 0, self_count: 0 },
        };
        let c = if self_count {
            Counts { self_count: v, ..old_counts }
        } else {
            Counts { total: v, ..old_counts }
        };
        counts.insert(id, c);
        i = i + 1;
    }
    proof {
        crate::first::lemma_first_index(pairs@.len() as int, bad, pairs@.len() as int);
    }
    Ok(())
}

/// Sample counts from the `totalLineHits` and `selfLineHits` lists of
/// instruction number and count bit pattern, totals first.
pub fn samples_from(total: Vec<(u64, u64)>, self_count: Vec<(u64, u64)>) -> (r: Result<
    Samples,
    CliErr,
>)
    ensures
        match first_index(total@.len() as int, |i: int| bad_count(total@, i)) {
            Some(i) => r matches Err(e) && e@ == count_msg("totalLineHits"@, total@[i].0),
            None => {
                let after = recorded(Map::empty(), total@, false, total@.len() as int);
                match first_index(self_count@.len() as int, |i: int| bad_count(self_count@, i)) {
                    Some(i) => r matches Err(e) && e@ == count_msg(
                        "selfLineHits"@,
                        self_count@[i].0,
                    ),
                    None => r matches Ok(s) && s.counts@ == recorded(
                        after,
                        self_count@,
                        true,
                        self_count@.len() as int,
                    ),
                }
            },
        },
{
    let mut counts: BTreeMap<u64, Counts> = BTreeMap::new();
    match add_counts("totalLineHits", total, &mut counts, false) {
        Ok(()) => {},
        Err(e) => {
            return Err(e);
        },
    }
    match add_counts("selfLineHits", self_count, &mut counts, true) {
        Ok(()) => {},
        Err(e) => {
            return Err(e);
        },
    }
    Ok(Samples { counts })
}

/// Checks the version an Ion file declares: given whether it has one,
/// whether it is the number 1, and how it is written. Only version 1 is
/// read.
pub fn check_version(version: Option<(bool, String)>) -> (r: Result<(), CliErr>)
    ensures
        match version {
            None => r matches Err(e) && e@ == "ion.json must explicitly declare version 1"@,
            Some((one, text)) => if one {
                r is Ok
            } else {
                r matches Err(e) && e@ == "unsupported ion.json version "@ + text@ + "; expected 1"@
            },
        },
{
    match version {
        None => Err(CliErr::new(String::from_str("ion.json must explicitly declare version 1"))),
        Some((one, text)) => {
            if one {
                Ok(())
            } else {
                let mut msg = String::from_str("unsupported ion.json version ");
                msg.append(text.as_str());
                msg.append("; expected 1");
                Err(CliErr::new(msg))
            }
        },
    }
}

} // verus!
