//! Macro evaluation and the two-pass resolution of labels and macros into
//! resolved code.
//!
//! A macro body is `term (op term)*` with `op` one of `+` and `-`; a term
//! is a decimal integer or a label name. A body that starts with an
//! operator reads as if prefixed with `0`. The value, computed left to
//! right with 64-bit wrapping arithmetic, expands to `!` followed by its 64
//! bits, most significant first, written as `0` and `1`.
use vstd::prelude::*;
use crate::alphabet::{is_code, is_symbol, sym, ADD, PUSH, SHL0, SHL1, SUB};
use crate::labels::LabelTable;
use crate::lexer::{is_lower, scripts_are_code, segments, Segment, Token};
use crate::vm::{active, lemma_wrap64_small, modulus, next_pc, rest, top, underflows, run_spec, step_spec, with_active, wrap64, Machine, Status, Trace};

verus! {

/// The digit `0`.
pub const ZERO: u8 = 48;

/// What went wrong in a macro body.
#[derive(Clone, Copy, Debug, PartialEq, Eq, Structural)]
pub enum MacroErrorKind {
    /// The body is empty.
    Empty,
    /// The body ends with an operator.
    TrailingOperator,
    /// Two operators stand next to each other.
    RepeatedOperator,
    /// A term names a label that is not declared.
    UnknownLabel,
    /// A term is neither a decimal `i64` nor a lowercase name.
    MalformedTerm,
}

/// A macro error, with the body it was found in.
#[derive(Debug)]
pub struct MacroError {
    pub kind: MacroErrorKind,
    pub body: Vec<u8>,
}

/// An operator or a term of a macro body.
pub enum Piece {
    Term(Seq<u8>),
    Op(u8),
}

pub open spec fn is_op(c: u8) -> bool {
    c == ADD || c == SUB
}

pub open spec fn is_digit(c: u8) -> bool {
    48 <= c <= 57
}

/// A body cut at its operators: each operator is a piece, and each maximal
/// run of other bytes is a term.
pub open spec fn pieces(m: Seq<u8>) -> Seq<Piece>
    decreases m.len(),
{
    if m.len() == 0 {
        Seq::empty()
    } else {
        let p = pieces(m.drop_last());
        let c = m.last();
        if is_op(c) {
            p.push(Piece::Op(c))
        } else if p.len() > 0 && p.last() is Term {
            p.drop_last().push(Piece::Term(p.last()->Term_0.push(c)))
        } else {
            p.push(Piece::Term(seq![c]))
        }
    }
}

/// The pieces of a body, with a term `0` in front when it starts with an
/// operator.
pub open spec fn normalized(m: Seq<u8>) -> Seq<Piece> {
    if m.len() > 0 && is_op(m[0]) {
        seq![Piece::Term(seq![ZERO])] + pieces(m)
    } else {
        pieces(m)
    }
}

/// Terms stand at the even positions and operators at the odd ones.
pub open spec fn alternating(ps: Seq<Piece>) -> bool {
    forall|i: int| 0 <= i < ps.len() ==> ((#[trigger] ps[i] is Term) <==> i % 2 == 0)
}

/// The value of a decimal digit string.
pub open spec fn decimal(s: Seq<u8>) -> int
    decreases s.len(),
{
    if s.len() == 0 {
        0
    } else {
        10 * decimal(s.drop_last()) + (s.last() - 48)
    }
}

pub open spec fn all_digits(s: Seq<u8>) -> bool {
    forall|i: int| 0 <= i < s.len() ==> is_digit(#[trigger] s[i])
}

pub open spec fn all_lower(s: Seq<u8>) -> bool {
    forall|i: int| 0 <= i < s.len() ==> is_lower(#[trigger] s[i])
}

/// The value of a term: a decimal integer that fits in `i64`, or the
/// offset of a declared label.
pub open spec fn term_value(t: Seq<u8>, labels: Map<Seq<u8>, usize>) -> Result<i64, MacroErrorKind> {
    if all_digits(t) && decimal(t) <= i64::MAX {
        Ok(decimal(t) as i64)
    } else if all_lower(t) {
        if labels.contains_key(t) {
            Ok(labels[t] as i64)
        } else {
            Err(MacroErrorKind::UnknownLabel)
        }
    } else {
        Err(MacroErrorKind::MalformedTerm)
    }
}

/// Left-to-right evaluation of alternating pieces; the first bad term
/// decides the error.
pub open spec fn eval_pieces(ps: Seq<Piece>, labels: Map<Seq<u8>, usize>) -> Result<i64, MacroErrorKind>
    decreases ps.len(),
{
    if ps.len() <= 1 {
        term_value(ps[0]->Term_0, labels)
    } else {
        match eval_pieces(ps.take(ps.len() - 2), labels) {
            Err(e) => Err(e),
            Ok(a) => match term_value(ps.last()->Term_0, labels) {
                Err(e) => Err(e),
                Ok(b) => Ok(
                    if ps[ps.len() - 2]->Op_0 == ADD {
                        wrap64(a + b)
                    } else {
                        wrap64(a - b)
                    },
                ),
            },
        }
    }
}

/// The value of macro body `m` under `labels`, or why it has none.
pub open spec fn eval_macro(m: Seq<u8>, labels: Map<Seq<u8>, usize>) -> Result<i64, MacroErrorKind> {
    let ps = normalized(m);
    if m.len() == 0 {
        Err(MacroErrorKind::Empty)
    } else if ps.last() is Op {
        Err(MacroErrorKind::TrailingOperator)
    } else if !alternating(ps) {
        Err(MacroErrorKind::RepeatedOperator)
    } else {
        eval_pieces(ps, labels)
    }
}

/// The symbol for bit `i` of `v`.
pub open spec fn bit_symbol(v: i64, i: u64) -> u8 {
    if (v >> i) & 1 == 1 {
        SHL1
    } else {
        SHL0
    }
}

/// The 65-byte expansion of value `v`: `!`, then the bits of `v` from the
/// most significant down, as `0` and `1`.
pub open spec fn macro_code(v: i64) -> Seq<u8> {
    seq![PUSH] + Seq::new(64, |j: int| bit_symbol(v, (63 - j) as u64))
}

/// How many bytes of resolved code a segment stands for.
pub open spec fn seg_len(s: Segment) -> int {
    match s {
        Segment::Script(v) => v.len() as int,
        Segment::Macro(_) => 65,
        Segment::Label(_) => 0,
    }
}

/// The length of the resolved code of `ss`.
pub open spec fn resolved_len(ss: Seq<Segment>) -> int
    decreases ss.len(),
{
    if ss.len() == 0 {
        0
    } else {
        resolved_len(ss.drop_last()) + seg_len(ss.last())
    }
}

/// The label table of `ss`: each label at the offset where it stands, a
/// later declaration of a name replacing an earlier one.
pub open spec fn labels_of(ss: Seq<Segment>) -> Map<Seq<u8>, usize>
    decreases ss.len(),
{
    if ss.len() == 0 {
        Map::empty()
    } else {
        let m = labels_of(ss.drop_last());
        match ss.last() {
            Segment::Label(n) => m.insert(n, resolved_len(ss.drop_last()) as usize),
            _ => m,
        }
    }
}

/// The resolved code of `ss` under `labels`, or the first macro error
/// with the body it was found in.
pub open spec fn emit(ss: Seq<Segment>, labels: Map<Seq<u8>, usize>) -> Result<Seq<u8>, (MacroErrorKind, Seq<u8>)>
    decreases ss.len(),
{
    if ss.len() == 0 {
        Ok(Seq::empty())
    } else {
        match emit(ss.drop_last(), labels) {
            Err(e) => Err(e),
            Ok(c) => match ss.last() {
                Segment::Script(v) => Ok(c + v),
                Segment::Macro(m) => match eval_macro(m, labels) {
                    Ok(x) => Ok(c + macro_code(x)),
                    Err(k) => Err((k, m)),
                },
                Segment::Label(_) => Ok(c),
            },
        }
    }
}

/// The resolved code of a token stream: labels first, then emission.
pub open spec fn resolve(ss: Seq<Segment>) -> Result<Seq<u8>, (MacroErrorKind, Seq<u8>)> {
    emit(ss, labels_of(ss))
}

/// A piece of a macro body.
enum Part {
    Term(Vec<u8>),
    Op(u8),
}

impl View for Part {
    type V = Piece;

    closed spec fn view(&self) -> Piece {
        match self {
            Part::Term(v) => Piece::Term(v@),
            Part::Op(c) => Piece::Op(*c),
        }
    }
}

spec fn parts_view(ps: Seq<Part>) -> Seq<Piece> {
    ps.map_values(|p: Part| p@)
}

/// Cuts `body` into its pieces.
fn split(body: &Vec<u8>) -> (r: Vec<Part>)
    ensures
        parts_view(r@) == pieces(body@),
{
    let mut parts: Vec<Part> = Vec::new();
    let mut buf: Vec<u8> = Vec::new();
    let mut i: usize = 0;
    while i < body.len()
        invariant
            i <= body@.len(),
            pieces(body@.take(i as int)) == parts_view(parts@) + (if buf@.len() > 0 {
                seq![Piece::Term(buf@)]
            } else {
                Seq::empty()
            }),
            parts@.len() == 0 || parts_view(parts@).last() is Op,
        decreases body@.len() - i,
    {
        let c = body[i];
        let ghost before = parts_view(parts@);
        let ghost buf_before = buf@;
        assert(body@.take(i + 1).drop_last() =~= body@.take(i as int));
        if c == ADD || c == SUB {
            if buf.len() > 0 {
                parts.push(Part::Term(buf));
                buf = Vec::new();
            }
            parts.push(Part::Op(c));
            assert(parts_view(parts@) =~= pieces(body@.take(i as int)).push(Piece::Op(c)));
        } else {
            buf.push(c);
            proof {
                if buf_before.len() > 0 {
                    assert(pieces(body@.take(i as int)) =~= before.push(Piece::Term(buf_before)));
                    assert(pieces(body@.take(i + 1)) =~= before.push(Piece::Term(buf@)));
                } else {
                    assert(pieces(body@.take(i as int)) =~= before);
                    assert(buf@ =~= seq![c]);
                    assert(body@.take(i + 1).last() == c);
                    assert(pieces(body@.take(i + 1)) =~= before.push(Piece::Term(buf@)));
                }
            }
        }
        i = i + 1;
    }
    assert(body@.take(body@.len() as int) =~= body@);
    if buf.len() > 0 {
        parts.push(Part::Term(buf));
    }
    assert(parts_view(parts@) =~= pieces(body@));
    parts
}

/// `decimal` computed, or `None` for a string that is not all digits or
/// whose value exceeds `i64::MAX`.
fn parse_decimal(t: &Vec<u8>) -> (r: Option<i64>)
    ensures
        r == (if all_digits(t@) && decimal(t@) <= i64::MAX { Some(decimal(t@) as i64) } else { None::<i64> }),
{
    let mut v: i64 = 0;
    let mut over = false;
    let mut i: usize = 0;
    while i < t.len()
        invariant
            i <= t@.len(),
            all_digits(t@.take(i as int)),
            over ==> decimal(t@.take(i as int)) > i64::MAX,
            !over ==> v == decimal(t@.take(i as int)),
            v >= 0,
        decreases t@.len() - i,
    {
        let c = t[i];
        if c < 48 || c > 57 {
            assert(!is_digit(t@[i as int]));
            return None;
        }
        assert(t@.take(i + 1).drop_last() =~= t@.take(i as int));
        assert(t@.take(i + 1).last() == c);
        assert(decimal(t@.take(i + 1)) == 10 * decimal(t@.take(i as int)) + (c - 48));
        let d = (c - 48) as i64;
        if !over {
            match v.checked_mul(10) {
                Some(w) => match w.checked_add(d) {
                    Some(x) => {
                        v = x;
                    },
                    None => {
                        over = true;
                    },
                },
                None => {
                    over = true;
                },
            }
        }
        i = i + 1;
    }
    assert(t@.take(t@.len() as int) =~= t@);
    if over {
        None
    } else {
        Some(v)
    }
}

/// Whether every byte of `t` is a lowercase letter.
fn lowercase_only(t: &Vec<u8>) -> (r: bool)
    ensures
        r == all_lower(t@),
{
    let mut i: usize = 0;
    while i < t.len()
        invariant
            i <= t@.len(),
            forall|j: int| 0 <= j < i ==> is_lower(#[trigger] t@[j]),
        decreases t@.len() - i,
    {
        if t[i] < 97 || t[i] > 122 {
            return false;
        }
        i = i + 1;
    }
    true
}

/// `term_value` computed.
fn value_of_term(t: &Vec<u8>, labels: &LabelTable) -> (r: Result<i64, MacroErrorKind>)
    ensures
        r == term_value(t@, labels@),
{
    match parse_decimal(t) {
        Some(v) => Ok(v),
        None => {
            if lowercase_only(t) {
                match labels.get(t) {
                    Some(o) => Ok(#[verifier::truncate] (o as i64)),
                    None => Err(MacroErrorKind::UnknownLabel),
                }
            } else {
                Err(MacroErrorKind::MalformedTerm)
            }
        },
    }
}

/// Once a prefix of the pieces has an error, so does the whole.
proof fn lemma_error_persists(ps: Seq<Piece>, j: int, labels: Map<Seq<u8>, usize>)
    requires
        1 <= j <= ps.len(),
        j % 2 == 1,
        ps.len() % 2 == 1,
        eval_pieces(ps.take(j), labels) is Err,
    ensures
        eval_pieces(ps, labels) == eval_pieces(ps.take(j), labels),
    decreases ps.len(),
{
    if ps.len() == j {
        assert(ps.take(j) =~= ps);
    } else {
        let q = ps.take(ps.len() - 2);
        assert(q.take(j) =~= ps.take(j));
        lemma_error_persists(q, j, labels);
    }
}

/// The normalized pieces of `body`.
fn normalize(body: &Vec<u8>) -> (r: Vec<Part>)
    ensures
        parts_view(r@) == normalized(body@),
{
    let mut parts = split(body);
    if body.len() > 0 && (body[0] == ADD || body[0] == SUB) {
        let ghost before = parts@;
        let mut zero: Vec<u8> = Vec::new();
        zero.push(ZERO);
        assert(zero@ =~= seq![ZERO]);
        parts.insert(0, Part::Term(zero));
        assert(parts@ =~= seq![parts@[0]] + before);
        assert(parts_view(parts@) =~= normalized(body@));
    }
    parts
}

/// Whether terms and operators alternate, starting with a term.
fn check_alternating(parts: &Vec<Part>) -> (r: bool)
    ensures
        r == alternating(parts_view(parts@)),
{
    let ghost ps = parts_view(parts@);
    let mut i: usize = 0;
    while i < parts.len()
        invariant
            i <= parts@.len(),
            ps == parts_view(parts@),
            forall|j: int| 0 <= j < i ==> ((#[trigger] ps[j] is Term) <==> j % 2 == 0),
        decreases parts@.len() - i,
    {
        let is_term = match &parts[i] {
            Part::Term(_) => true,
            Part::Op(_) => false,
        };
        if is_term != (i % 2 == 0) {
            assert(ps[i as int] is Term == is_term);
            return false;
        }
        i = i + 1;
    }
    true
}

/// `eval_pieces` computed.
fn fold_terms(parts: &Vec<Part>, labels: &LabelTable) -> (r: Result<i64, MacroErrorKind>)
    requires
        alternating(parts_view(parts@)),
        parts@.len() % 2 == 1,
    ensures
        r == eval_pieces(parts_view(parts@), labels@),
{
    let ghost ps = parts_view(parts@);
    let n = parts.len();
    assert(ps[0] is Term);
    let mut acc: i64 = match &parts[0] {
        Part::Term(t) => match value_of_term(t, labels) {
            Ok(v) => v,
            Err(e) => {
                proof {
                    lemma_error_persists(ps, 1, labels@);
                }
                return Err(e);
            },
        },
        Part::Op(_) => {
            return Err(MacroErrorKind::RepeatedOperator);
        },
    };
    let mut k: usize = 1;
    while k < n
        invariant
            n == parts@.len(),
            n % 2 == 1,
            ps == parts_view(parts@),
            alternating(ps),
            1 <= k <= n,
            k % 2 == 1,
            eval_pieces(ps.take(k as int), labels@) == Ok::<i64, MacroErrorKind>(acc),
        decreases n - k,
    {
        let ghost q = ps.take(k + 2);
        assert(q.take(k as int) =~= ps.take(k as int));
        assert(ps[k as int] is Op);
        assert(ps[k + 1] is Term);
        let op = match &parts[k] {
            Part::Op(c) => *c,
            Part::Term(_) => ADD,
        };
        let b = match &parts[k + 1] {
            Part::Term(t) => match value_of_term(t, labels) {
                Ok(v) => v,
                Err(e) => {
                    proof {
                        assert(q.last() == ps[k + 1]);
                        assert(eval_pieces(q, labels@) == Err::<i64, MacroErrorKind>(e));
                        lemma_error_persists(ps, k + 2, labels@);
                    }
                    return Err(e);
                },
            },
            Part::Op(_) => ADD as i64,
        };
        if op == ADD {
            proof {
                lemma_wrap64_small(acc + b);
            }
            acc = acc.wrapping_add(b);
        } else {
            proof {
                lemma_wrap64_small(acc - b);
            }
            acc = acc.wrapping_sub(b);
        }
        k = k + 2;
    }
    assert(ps.take(n as int) =~= ps);
    Ok(acc)
}

/// The value of macro body `body` under `labels`, or why it has none.
pub fn evaluate(body: &Vec<u8>, labels: &LabelTable) -> (r: Result<i64, MacroErrorKind>)
    ensures
        r == eval_macro(body@, labels@),
{
    if body.len() == 0 {
        return Err(MacroErrorKind::Empty);
    }
    let parts = normalize(body);
    let ghost ps = normalized(body@);
    let n = parts.len();
    assert(n > 0);
    if let Part::Op(_) = &parts[n - 1] {
        return Err(MacroErrorKind::TrailingOperator);
    }
    assert(!(ps.last() is Op));
    if !check_alternating(&parts) {
        return Err(MacroErrorKind::RepeatedOperator);
    }
    assert(n % 2 == 1) by {
        assert(ps[n - 1] is Term);
    }
    fold_terms(&parts, labels)
}

/// The expansion of `v`: pushing it takes 65 instructions.
pub fn push_code(v: i64) -> (r: Vec<u8>)
    ensures
        r@ == macro_code(v),
{
    let mut out: Vec<u8> = Vec::new();
    out.push(PUSH);
    let mut j: u64 = 0;
    while j < 64
        invariant
            j <= 64,
            out@ == seq![PUSH] + Seq::new(j as nat, |k: int| bit_symbol(v, (63 - k) as u64)),
        decreases 64 - j,
    {
        let i = 63 - j;
        let b = if (v >> i) & 1 == 1 {
            SHL1
        } else {
            SHL0
        };
        out.push(b);
        assert(out@ =~= seq![PUSH] + Seq::new((j + 1) as nat, |k: int| bit_symbol(v, (63 - k) as u64)));
        j = j + 1;
    }
    assert(out@ =~= macro_code(v));
    out
}

/// The expansion of macro `body` under `labels`: 65 bytes, a `!` and then
/// 64 of `0` and `1`.
pub fn expand(body: &Vec<u8>, labels: &LabelTable) -> (r: Result<Vec<u8>, MacroErrorKind>)
    ensures
        match eval_macro(body@, labels@) {
            Ok(v) => r is Ok && r->Ok_0@ == macro_code(v),
            Err(k) => r == Err::<Vec<u8>, MacroErrorKind>(k),
        },
        r is Ok ==> ({
            let c = r->Ok_0@;
            &&& c.len() == 65
            &&& c[0] == PUSH
            &&& forall|j: int| 1 <= j < 65 ==> #[trigger] c[j] == SHL0 || c[j] == SHL1
        }),
{
    match evaluate(body, labels) {
        Ok(v) => {
            let c = push_code(v);
            assert(forall|j: int| 1 <= j < 65 ==> #[trigger] c@[j] == bit_symbol(v, (63 - (j - 1)) as u64));
            Ok(c)
        },
        Err(k) => Err(k),
    }
}

/// An expansion is code.
pub proof fn lemma_macro_code_is_code(v: i64)
    ensures
        is_code(macro_code(v)),
{
    assert(sym(0) == PUSH && sym(14) == SHL0 && sym(15) == SHL1);
    assert(is_symbol(PUSH) && is_symbol(SHL0) && is_symbol(SHL1));
}

/// Resolving segments whose scripts are code gives code.
pub proof fn lemma_emit_is_code(ss: Seq<Segment>, labels: Map<Seq<u8>, usize>)
    requires
        scripts_are_code(ss),
    ensures
        emit(ss, labels) is Ok ==> is_code(emit(ss, labels)->Ok_0),
    decreases ss.len(),
{
    if ss.len() > 0 {
        let p = ss.drop_last();
        assert(scripts_are_code(p)) by {
            assert forall|i: int| 0 <= i < p.len() && (#[trigger] p[i]) is Script implies is_code(p[i]->Script_0) by {
                assert(p[i] == ss[i]);
            }
        }
        lemma_emit_is_code(p, labels);
        if emit(ss, labels) is Ok {
            let c = emit(p, labels)->Ok_0;
            let r = emit(ss, labels)->Ok_0;
            match ss.last() {
                Segment::Script(v) => {
                    assert(ss[ss.len() - 1] is Script);
                    assert(is_code(v));
                    assert(r == c + v);
                    assert forall|j: int| 0 <= j < r.len() implies is_symbol(#[trigger] r[j]) by {
                        if j < c.len() {
                            assert(r[j] == c[j]);
                        } else {
                            assert(r[j] == v[j - c.len()]);
                        }
                    }
                },
                Segment::Macro(m) => {
                    let x = eval_macro(m, labels)->Ok_0;
                    lemma_macro_code_is_code(x);
                    assert(r == c + macro_code(x));
                    assert forall|j: int| 0 <= j < r.len() implies is_symbol(#[trigger] r[j]) by {
                        if j < c.len() {
                            assert(r[j] == c[j]);
                        } else {
                            assert(r[j] == macro_code(x)[j - c.len()]);
                        }
                    }
                },
                Segment::Label(_) => {},
            }
        }
    }
}

proof fn lemma_resolved_len_prefix(ss: Seq<Segment>, i: int)
    requires
        0 <= i <= ss.len(),
    ensures
        0 <= resolved_len(ss.take(i)) <= resolved_len(ss),
    decreases ss.len(),
{
    if i < ss.len() {
        assert(ss.drop_last().take(i) =~= ss.take(i));
        lemma_resolved_len_prefix(ss.drop_last(), i);
    } else {
        assert(ss.take(i) =~= ss);
    }
    if ss.len() > 0 {
        lemma_resolved_len_prefix(ss.drop_last(), ss.len() - 1);
        assert(ss.drop_last().take(ss.len() - 1) =~= ss.drop_last());
    }
}

/// The length of the resolved code of `tokens`, or `None` when it exceeds
/// `isize::MAX`, the most bytes a vector can hold.
pub fn code_len(tokens: &Vec<Token>) -> (r: Option<usize>)
    ensures
        r == (if resolved_len(segments(tokens@)) <= isize::MAX {
            Some(resolved_len(segments(tokens@)) as usize)
        } else {
            None::<usize>
        }),
{
    let ghost ss = segments(tokens@);
    let limit = isize::MAX as usize;
    let mut total: usize = 0;
    let mut i: usize = 0;
    while i < tokens.len()
        invariant
            ss == segments(tokens@),
            i <= tokens@.len(),
            limit == isize::MAX,
            total == resolved_len(ss.take(i as int)),
            total <= limit,
        decreases tokens@.len() - i,
    {
        assert(ss.take(i + 1).drop_last() =~= ss.take(i as int));
        let n: usize = match &tokens[i] {
            Token::Script(v) => v.len(),
            Token::Macro(_) => 65,
            Token::Label(_) => 0,
        };
        if n > limit - total {
            proof {
                lemma_resolved_len_prefix(ss, i + 1);
            }
            return None;
        }
        total = total + n;
        i = i + 1;
    }
    assert(ss.take(i as int) =~= ss);
    Some(total)
}

/// Appends the bytes of `v` to `out`.
fn append_bytes(out: &mut Vec<u8>, v: &Vec<u8>)
    ensures
        final(out)@ == old(out)@ + v@,
{
    let ghost start = out@;
    let mut i: usize = 0;
    while i < v.len()
        invariant
            i <= v@.len(),
            out@ == start + v@.take(i as int),
        decreases v@.len() - i,
    {
        out.push(v[i]);
        assert(out@ =~= start + v@.take(i + 1));
        i = i + 1;
    }
    assert(v@.take(v@.len() as int) =~= v@);
}

/// A copy of `v`.
fn copy_bytes(v: &Vec<u8>) -> (r: Vec<u8>)
    ensures
        r@ == v@,
{
    let mut r: Vec<u8> = Vec::new();
    append_bytes(&mut r, v);
    assert(r@ =~= v@);
    r
}

/// Once a prefix of the segments has an error, the whole has that error.
proof fn lemma_emit_error_persists(ss: Seq<Segment>, j: int, labels: Map<Seq<u8>, usize>)
    requires
        0 <= j <= ss.len(),
        emit(ss.take(j), labels) is Err,
    ensures
        emit(ss, labels) == emit(ss.take(j), labels),
    decreases ss.len(),
{
    if ss.len() == j {
        assert(ss.take(j) =~= ss);
    } else {
        assert(ss.drop_last().take(j) =~= ss.take(j));
        lemma_emit_error_persists(ss.drop_last(), j, labels);
    }
}

/// Pass one: the label table of `tokens`.
fn collect_labels(tokens: &Vec<Token>) -> (r: LabelTable)
    requires
        resolved_len(segments(tokens@)) <= isize::MAX,
    ensures
        r@ == labels_of(segments(tokens@)),
{
    let ghost ss = segments(tokens@);
    let mut labels = LabelTable::new();
    let mut offset: usize = 0;
    let mut i: usize = 0;
    while i < tokens.len()
        invariant
            ss == segments(tokens@),
            resolved_len(ss) <= isize::MAX,
            i <= tokens@.len(),
            offset == resolved_len(ss.take(i as int)),
            labels@ == labels_of(ss.take(i as int)),
        decreases tokens@.len() - i,
    {
        assert(ss.take(i + 1).drop_last() =~= ss.take(i as int));
        proof {
            lemma_resolved_len_prefix(ss, i + 1);
        }
        match &tokens[i] {
            Token::Script(v) => {
                offset = offset + v.len();
            },
            Token::Macro(_) => {
                offset = offset + 65;
            },
            Token::Label(v) => {
                labels.insert(copy_bytes(v), offset);
            },
        }
        i = i + 1;
    }
    assert(ss.take(i as int) =~= ss);
    labels
}

/// Resolves `tokens` into code: each label gets the offset where it stands,
/// then scripts are copied and macros expanded in order. The first macro
/// that cannot be evaluated is returned as the error, with its body.
pub fn parse(tokens: &Vec<Token>) -> (r: Result<Vec<u8>, MacroError>)
    requires
        resolved_len(segments(tokens@)) <= isize::MAX,
    ensures
        match resolve(segments(tokens@)) {
            Ok(c) => r is Ok && r->Ok_0@ == c,
            Err((k, m)) => r is Err && r->Err_0.kind == k && r->Err_0.body@ == m,
        },
        scripts_are_code(segments(tokens@)) && r is Ok ==> is_code(r->Ok_0@),
{
    let ghost ss = segments(tokens@);
    let labels = collect_labels(tokens);
    let ghost lm = labels@;
    let mut out: Vec<u8> = Vec::new();
    let mut i: usize = 0;
    while i < tokens.len()
        invariant
            ss == segments(tokens@),
            lm == labels@,
            lm == labels_of(ss),
            i <= tokens@.len(),
            emit(ss.take(i as int), lm) == Ok::<Seq<u8>, (MacroErrorKind, Seq<u8>)>(out@),
        decreases tokens@.len() - i,
    {
        assert(ss.take(i + 1).drop_last() =~= ss.take(i as int));
        match &tokens[i] {
            Token::Script(v) => {
                append_bytes(&mut out, v);
            },
            Token::Macro(m) => {
                match expand(m, &labels) {
                    Ok(code) => {
                        let mut code = code;
                        out.append(&mut code);
                    },
                    Err(k) => {
                        proof {
                            lemma_emit_error_persists(ss, i + 1, lm);
                        }
                        return Err(MacroError { kind: k, body: copy_bytes(m) });
                    },
                }
            },
            Token::Label(_) => {},
        }
        i = i + 1;
    }
    assert(ss.take(i as int) =~= ss);
    proof {
        if scripts_are_code(ss) {
            lemma_emit_is_code(ss, lm);
        }
    }
    Ok(out)
}

/// The top of the stack after the `!` and the first `k` bits of the
/// expansion of `v`: ones above the `k` highest bits of `v`.
pub open spec fn partial(v: i64, k: u64) -> i64 {
    if k == 0 {
        -1i64
    } else if k >= 64 {
        v
    } else {
        (v >> ((64 - k) as u64)) | (-1i64 << k)
    }
}

/// Shifting in bit `63 - k` of `v` extends `partial(v, k)` by one bit.
proof fn lemma_shift_in(v: i64, k: u64)
    requires
        k < 64,
    ensures
        (if (v >> ((63 - k) as u64)) & 1 == 1 {
            (partial(v, k) << 1) | 1
        } else {
            partial(v, k) << 1
        }) == partial(v, (k + 1) as u64),
{
    if k == 0 {
        assert((if (v >> 63u64) & 1 == 1 { (-1i64 << 1) | 1 } else { -1i64 << 1 }) == (v >> 63u64) | (-1i64 << 1u64)) by (bit_vector);
    } else if k == 63 {
        let x = (v >> 1u64) | (-1i64 << 63u64);
        assert((if (v >> 0u64) & 1 == 1 { (x << 1) | 1 } else { x << 1 }) == v) by (bit_vector)
            requires
                x == (v >> 1u64) | (-1i64 << 63u64),
        ;
    } else {
        let x = (v >> ((64 - k) as u64)) | (-1i64 << k);
        let k1 = (k + 1) as u64;
        assert((if (v >> ((63 - k) as u64)) & 1 == 1 { (x << 1) | 1 } else { x << 1 }) == (v >> ((64 - k1) as u64)) | (-1i64 << k1)) by (bit_vector)
            requires
                1 <= k <= 62,
                k1 == k + 1,
                x == (v >> ((64 - k) as u64)) | (-1i64 << k),
        ;
    }
}

/// The machine `m` after the `!` and the first `k` bits of the expansion
/// of `v` that starts at its program counter.
pub open spec fn midway(m: Machine, v: i64, k: u64) -> Machine {
    Machine { pc: m.pc + 1 + k, ..with_active(m, active(m).push(partial(v, k))) }
}

proof fn lemma_bits_push(m: Machine, code: Seq<u8>, input: Seq<u8>, v: i64, k: u64)
    requires
        0 <= m.pc,
        m.pc + 65 < code.len(),
        code.len() <= u64::MAX,
        code.subrange(m.pc, m.pc + 65) == macro_code(v),
        k <= 64,
    ensures
        run_spec(midway(m, v, k), code, input, (64 - k) as nat) == (Trace {
            machine: midway(m, v, 64),
            output: Seq::empty(),
            status: Status::Running,
            input,
        }),
    decreases 64 - k,
{
    if k < 64 {
        let mk = midway(m, v, k);
        let k1 = (k + 1) as u64;
        assert(code[mk.pc] == code.subrange(m.pc, m.pc + 65)[1 + k]);
        assert(code[mk.pc] == bit_symbol(v, (63 - k) as u64));
        lemma_shift_in(v, k);
        let inb = if input.len() > 0 { Some(input[0]) } else { None };
        assert(active(mk).drop_last() == active(m));
        assert(rest(active(mk)) == active(m));
        assert(top(active(mk)) == partial(v, k));
        assert(!underflows(mk, code[mk.pc]));
        assert(next_pc(mk.pc, 0) == mk.pc + 1);
        assert(step_spec(mk, code, inb).0 == midway(m, v, k1));
        lemma_bits_push(m, code, input, v, k1);
    }
}

/// Running the 65-byte expansion of `v` from any machine state pushes `v`
/// onto the active stack and changes nothing else: no output, no input
/// read, and the program counter just past the expansion.
pub proof fn lemma_expansion_pushes(m: Machine, code: Seq<u8>, input: Seq<u8>, v: i64)
    requires
        0 <= m.pc,
        m.pc + 65 < code.len(),
        code.len() <= u64::MAX,
        code.subrange(m.pc, m.pc + 65) == macro_code(v),
    ensures
        run_spec(m, code, input, 65) == (Trace {
            machine: Machine { pc: m.pc + 65, ..with_active(m, active(m).push(v)) },
            output: Seq::empty(),
            status: Status::Running,
            input,
        }),
{
    assert(code[m.pc] == code.subrange(m.pc, m.pc + 65)[0]);
    let inb = if input.len() > 0 { Some(input[0]) } else { None };
    assert(next_pc(m.pc, 0) == m.pc + 1);
    assert(step_spec(m, code, inb).0 == midway(m, v, 0));
    lemma_bits_push(m, code, input, v, 0);
    assert(midway(m, v, 64) == Machine { pc: m.pc + 65, ..with_active(m, active(m).push(v)) });
}
} // verus!
