//! The tokenizer: raw source bytes to a stream of instruction runs, macro
//! bodies and label declarations, with comments stripped.
use vstd::prelude::*;
use crate::alphabet::{is_code, is_instruction, is_symbol};

verus! {

/// A token as a mathematical value.
pub enum Segment {
    Script(Seq<u8>),
    Macro(Seq<u8>),
    Label(Seq<u8>),
}

/// A token of source text.
#[derive(Debug)]
pub enum Token {
    /// A run of instruction symbols.
    Script(Vec<u8>),
    /// The body between `[` and `]`.
    Macro(Vec<u8>),
    /// The name declared by `:`.
    Label(Vec<u8>),
}

impl View for Token {
    type V = Segment;

    open spec fn view(&self) -> Segment {
        match self {
            Token::Script(v) => Segment::Script(v@),
            Token::Macro(v) => Segment::Macro(v@),
            Token::Label(v) => Segment::Label(v@),
        }
    }
}

/// The segments of a token vector.
pub open spec fn segments(ts: Seq<Token>) -> Seq<Segment> {
    ts.map_values(|t: Token| t@)
}

/// Line feed.
pub const LF: u8 = 10;
/// Carriage return.
pub const CR: u8 = 13;
/// `#`, which starts a comment.
pub const HASH: u8 = 35;
/// `:`, which starts a label.
pub const COLON: u8 = 58;
/// `[`, which opens a macro.
pub const OPEN: u8 = 91;
/// `]`, which closes a macro.
pub const CLOSE: u8 = 93;

/// What the tokenizer is reading.
#[derive(Clone, Copy, Debug, PartialEq, Eq, Structural)]
pub enum Mode {
    Script,
    Comment,
    Macro,
    Label,
}

/// Why source text was refused.
#[derive(Clone, Copy, Debug, PartialEq, Eq, Structural)]
pub enum LexError {
    /// A byte of `0x80` or above, at a 1-based line and column.
    NonAscii { line: usize, column: usize },
    /// The input ended inside a macro.
    UnclosedMacro,
}

/// The tokenizer's state: its mode, the tokens emitted so far, and the
/// bytes of the token being read.
pub struct LexState {
    pub mode: Mode,
    pub done: Seq<Segment>,
    pub buf: Seq<u8>,
}

pub open spec fn is_lower(b: u8) -> bool {
    97 <= b <= 122
}

/// Byte `b` read in script mode.
pub open spec fn script_byte(st: LexState, b: u8) -> LexState {
    if is_symbol(b) {
        LexState { buf: st.buf.push(b), ..st }
    } else if b == HASH {
        LexState { mode: Mode::Comment, ..st }
    } else if b == OPEN {
        LexState { mode: Mode::Macro, done: st.done.push(Segment::Script(st.buf)), buf: Seq::empty() }
    } else if b == COLON {
        LexState { mode: Mode::Label, done: st.done.push(Segment::Script(st.buf)), buf: Seq::empty() }
    } else {
        st
    }
}

/// Byte `b` read in state `st`.
pub open spec fn lex_step(st: LexState, b: u8) -> LexState {
    match st.mode {
        Mode::Script => script_byte(st, b),
        Mode::Comment => if b == LF { LexState { mode: Mode::Script, ..st } } else { st },
        Mode::Macro => if b == CLOSE {
            LexState { mode: Mode::Script, done: st.done.push(Segment::Macro(st.buf)), buf: Seq::empty() }
        } else {
            LexState { buf: st.buf.push(b), ..st }
        },
        Mode::Label => if is_lower(b) {
            LexState { buf: st.buf.push(b), ..st }
        } else {
            script_byte(
                LexState { mode: Mode::Script, done: st.done.push(Segment::Label(st.buf)), buf: Seq::empty() },
                b,
            )
        },
    }
}

/// The state after reading `s` from the start, in script mode.
pub open spec fn lex_state(s: Seq<u8>) -> LexState
    decreases s.len(),
{
    if s.len() == 0 {
        LexState { mode: Mode::Script, done: Seq::empty(), buf: Seq::empty() }
    } else {
        lex_step(lex_state(s.drop_last()), s.last())
    }
}

/// The tokens at the end of input: the pending script or label is
/// emitted; what was gathered before a final unterminated comment is not.
pub open spec fn finish(st: LexState) -> Seq<Segment> {
    match st.mode {
        Mode::Script => st.done.push(Segment::Script(st.buf)),
        Mode::Label => st.done.push(Segment::Label(st.buf)),
        _ => st.done,
    }
}

/// The 1-based line of the byte that follows `s`.
pub open spec fn line_of(s: Seq<u8>) -> int
    decreases s.len(),
{
    if s.len() == 0 {
        1
    } else {
        line_of(s.drop_last()) + if s.last() == LF { 1int } else { 0int }
    }
}

/// The 1-based column of the byte that follows `s`; a carriage return
/// takes no column.
pub open spec fn column_of(s: Seq<u8>) -> int
    decreases s.len(),
{
    if s.len() == 0 {
        1
    } else if s.last() == LF {
        1
    } else if s.last() == CR {
        column_of(s.drop_last())
    } else {
        column_of(s.drop_last()) + 1
    }
}

pub open spec fn is_ascii(s: Seq<u8>) -> bool {
    forall|j: int| 0 <= j < s.len() ==> #[trigger] s[j] < 0x80
}


/// Every script token holds only instruction symbols.
pub open spec fn scripts_are_code(ss: Seq<Segment>) -> bool {
    forall|i: int| 0 <= i < ss.len() && (#[trigger] ss[i]) is Script ==> is_code(ss[i]->Script_0)
}

/// What the tokenizer keeps true: emitted scripts are code, and so is the
/// pending script, which a comment carries over.
pub open spec fn lex_inv(st: LexState) -> bool {
    &&& scripts_are_code(st.done)
    &&& (st.mode == Mode::Script || st.mode == Mode::Comment) ==> is_code(st.buf)
}

proof fn lemma_push_segment(ss: Seq<Segment>, s: Segment)
    requires
        scripts_are_code(ss),
        s is Script ==> is_code(s->Script_0),
    ensures
        scripts_are_code(ss.push(s)),
{
    assert forall|i: int| 0 <= i < ss.push(s).len() && (#[trigger] ss.push(s)[i]) is Script implies is_code(
        ss.push(s)[i]->Script_0,
    ) by {
        if i < ss.len() {
            assert(ss.push(s)[i] == ss[i]);
        }
    }
}

proof fn lemma_lex_step_inv(st: LexState, b: u8)
    requires
        lex_inv(st),
    ensures
        lex_inv(lex_step(st, b)),
{
    assert(is_code(Seq::<u8>::empty()));
    if st.mode == Mode::Script || st.mode == Mode::Comment {
        lemma_push_segment(st.done, Segment::Script(st.buf));
        if is_symbol(b) {
            assert(is_code(st.buf.push(b))) by {
                assert forall|j: int| 0 <= j < st.buf.push(b).len() implies is_symbol(#[trigger] st.buf.push(b)[j]) by {
                    if j < st.buf.len() {
                        assert(st.buf.push(b)[j] == st.buf[j]);
                    }
                }
            }
        }
    } else if st.mode == Mode::Macro {
        lemma_push_segment(st.done, Segment::Macro(st.buf));
    } else {
        let st2 = LexState { mode: Mode::Script, done: st.done.push(Segment::Label(st.buf)), buf: Seq::empty() };
        lemma_push_segment(st.done, Segment::Label(st.buf));
        lemma_push_segment(st2.done, Segment::Script(st2.buf));
        if is_symbol(b) {
            assert(st2.buf.push(b) =~= seq![b]);
            assert(is_code(seq![b]));
        }
    }
}

/// The tokenizer's state after any input keeps `lex_inv`.
proof fn lemma_lex_state_inv(s: Seq<u8>)
    ensures
        lex_inv(lex_state(s)),
    decreases s.len(),
{
    if s.len() == 0 {
        assert(is_code(Seq::<u8>::empty()));
    } else {
        lemma_lex_state_inv(s.drop_last());
        lemma_lex_step_inv(lex_state(s.drop_last()), s.last());
    }
}

/// The script tokens of any source are code.
pub proof fn lemma_finish_scripts_are_code(s: Seq<u8>)
    ensures
        scripts_are_code(finish(lex_state(s))),
{
    let st = lex_state(s);
    lemma_lex_state_inv(s);
    if st.mode == Mode::Script {
        lemma_push_segment(st.done, Segment::Script(st.buf));
    } else if st.mode == Mode::Label {
        lemma_push_segment(st.done, Segment::Label(st.buf));
    }
}

struct Lexer {
    mode: Mode,
    done: Vec<Token>,
    buf: Vec<u8>,
}

impl View for Lexer {
    type V = LexState;

    closed spec fn view(&self) -> LexState {
        LexState { mode: self.mode, done: segments(self.done@), buf: self.buf@ }
    }
}

impl Lexer {
    /// Emits the pending bytes as a script token.
    fn emit_script(&mut self)
        ensures
            final(self)@ == (LexState { done: old(self)@.done.push(Segment::Script(old(self)@.buf)), buf: Seq::empty(), ..old(self)@ }),
    {
        let mut b: Vec<u8> = Vec::new();
        std::mem::swap(&mut self.buf, &mut b);
        self.done.push(Token::Script(b));
        assert(segments(self.done@) =~= old(self)@.done.push(Segment::Script(old(self)@.buf)));
    }

    /// Emits the pending bytes as a macro token.
    fn emit_macro(&mut self)
        ensures
            final(self)@ == (LexState { done: old(self)@.done.push(Segment::Macro(old(self)@.buf)), buf: Seq::empty(), ..old(self)@ }),
    {
        let mut b: Vec<u8> = Vec::new();
        std::mem::swap(&mut self.buf, &mut b);
        self.done.push(Token::Macro(b));
        assert(segments(self.done@) =~= old(self)@.done.push(Segment::Macro(old(self)@.buf)));
    }

    /// Emits the pending bytes as a label token.
    fn emit_label(&mut self)
        ensures
            final(self)@ == (LexState { done: old(self)@.done.push(Segment::Label(old(self)@.buf)), buf: Seq::empty(), ..old(self)@ }),
    {
        let mut b: Vec<u8> = Vec::new();
        std::mem::swap(&mut self.buf, &mut b);
        self.done.push(Token::Label(b));
        assert(segments(self.done@) =~= old(self)@.done.push(Segment::Label(old(self)@.buf)));
    }

    fn script_byte(&mut self, b: u8)
        requires
            old(self).mode == Mode::Script,
        ensures
            final(self)@ == script_byte(old(self)@, b),
    {
        if is_instruction(b) {
            self.buf.push(b);
        } else if b == HASH {
            self.mode = Mode::Comment;
        } else if b == OPEN {
            self.emit_script();
            self.mode = Mode::Macro;
        } else if b == COLON {
            self.emit_script();
            self.mode = Mode::Label;
        }
    }

    fn step(&mut self, b: u8)
        ensures
            final(self)@ == lex_step(old(self)@, b),
    {
        match self.mode {
            Mode::Script => self.script_byte(b),
            Mode::Comment => {
                if b == LF {
                    self.mode = Mode::Script;
                }
            },
            Mode::Macro => {
                if b == CLOSE {
                    self.emit_macro();
                    self.mode = Mode::Script;
                } else {
                    self.buf.push(b);
                }
            },
            Mode::Label => {
                if 97 <= b && b <= 122 {
                    self.buf.push(b);
                } else {
                    self.emit_label();
                    self.mode = Mode::Script;
                    self.script_byte(b);
                }
            },
        }
    }
}

/// Splits source text into tokens. A byte of `0x80` or above is refused
/// with its line and column, and so is input that ends inside a macro.
pub fn tokenise(source: &Vec<u8>) -> (r: Result<Vec<Token>, LexError>)
    ensures
        match r {
            Ok(ts) => is_ascii(source@) && lex_state(source@).mode != Mode::Macro
                && segments(ts@) == finish(lex_state(source@)) && scripts_are_code(segments(ts@)),
            Err(LexError::UnclosedMacro) => is_ascii(source@) && lex_state(source@).mode == Mode::Macro,
            Err(LexError::NonAscii { line, column }) => exists|i: int|
                0 <= i < source@.len() && source@[i] >= 0x80 && is_ascii(#[trigger] source@.take(i))
                    && line == line_of(source@.take(i)) && column == column_of(source@.take(i)),
        },
{
    let mut lx = Lexer { mode: Mode::Script, done: Vec::new(), buf: Vec::new() };
    assert(source@.take(0) =~= Seq::<u8>::empty());
    assert(segments(lx.done@) =~= Seq::<Segment>::empty());
    assert(lx@ == lex_state(source@.take(0)));
    let mut line: usize = 1;
    let mut column: usize = 1;
    let mut i: usize = 0;
    while i < source.len()
        invariant
            i <= source@.len(),
            lx@ == lex_state(source@.take(i as int)),
            is_ascii(source@.take(i as int)),
            i < source@.len() ==> line == line_of(source@.take(i as int)),
            i < source@.len() ==> column == column_of(source@.take(i as int)),
            1 <= line <= i + 1,
            1 <= column <= i + 1,
        decreases source@.len() - i,
    {
        let b = source[i];
        let ghost pre = source@.take(i as int);
        if b >= 0x80 {
            return Err(LexError::NonAscii { line, column });
        }
        assert(source@.take(i + 1).drop_last() =~= pre);
        assert(source@.take(i + 1).last() == b);
        lx.step(b);
        if i + 1 < source.len() {
            if b == LF {
                line = line + 1;
                column = 1;
            } else if b != CR {
                column = column + 1;
            }
        }
        i = i + 1;
    }
    assert(source@.take(i as int) =~= source@);
    proof {
        lemma_finish_scripts_are_code(source@);
    }
    match lx.mode {
        Mode::Macro => Err(LexError::UnclosedMacro),
        Mode::Script => {
            lx.emit_script();
            Ok(lx.done)
        },
        Mode::Label => {
            lx.emit_label();
            Ok(lx.done)
        },
        Mode::Comment => Ok(lx.done),
    }
}

} // verus!
