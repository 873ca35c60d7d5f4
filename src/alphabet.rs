//! The sixteen instruction symbols; a symbol's position is its opcode.
use vstd::prelude::*;

verus! {

/// The symbol `!`.
pub const PUSH: u8 = 33;
/// The symbol `^`.
pub const XOR: u8 = 94;
/// The symbol `|`.
pub const OR: u8 = 124;
/// The symbol `&`.
pub const AND: u8 = 38;
/// The symbol `+`.
pub const ADD: u8 = 43;
/// The symbol `-`.
pub const SUB: u8 = 45;
/// The symbol `*`.
pub const MUL: u8 = 42;
/// The symbol `/`.
pub const DIV: u8 = 47;
/// The symbol `$`.
pub const SWITCH: u8 = 36;
/// The symbol `~`.
pub const EXCHANGE: u8 = 126;
/// The symbol `=`.
pub const DUP: u8 = 61;
/// The symbol `@`.
pub const JUMP: u8 = 64;
/// The symbol `?`.
pub const READ: u8 = 63;
/// The symbol `.`.
pub const WRITE: u8 = 46;
/// The symbol `0`.
pub const SHL0: u8 = 48;
/// The symbol `1`.
pub const SHL1: u8 = 49;

/// The symbol of opcode `i` (`0 <= i < 16`).
pub open spec fn sym(i: int) -> u8 {
    if i == 0 { PUSH }
    else if i == 1 { XOR }
    else if i == 2 { OR }
    else if i == 3 { AND }
    else if i == 4 { ADD }
    else if i == 5 { SUB }
    else if i == 6 { MUL }
    else if i == 7 { DIV }
    else if i == 8 { SWITCH }
    else if i == 9 { EXCHANGE }
    else if i == 10 { DUP }
    else if i == 11 { JUMP }
    else if i == 12 { READ }
    else if i == 13 { WRITE }
    else if i == 14 { SHL0 }
    else { SHL1 }
}

/// Whether `b` is one of the sixteen instruction symbols.
pub open spec fn is_symbol(b: u8) -> bool {
    exists|i: int| 0 <= i < 16 && sym(i) == b
}

/// The opcode of symbol `b`.
pub open spec fn idx(b: u8) -> int {
    if b == PUSH { 0 }
    else if b == XOR { 1 }
    else if b == OR { 2 }
    else if b == AND { 3 }
    else if b == ADD { 4 }
    else if b == SUB { 5 }
    else if b == MUL { 6 }
    else if b == DIV { 7 }
    else if b == SWITCH { 8 }
    else if b == EXCHANGE { 9 }
    else if b == DUP { 10 }
    else if b == JUMP { 11 }
    else if b == READ { 12 }
    else if b == WRITE { 13 }
    else if b == SHL0 { 14 }
    else { 15 }
}

/// Resolved code: every byte is an instruction symbol.
pub open spec fn is_code(c: Seq<u8>) -> bool {
    forall|j: int| 0 <= j < c.len() ==> is_symbol(#[trigger] c[j])
}

/// `sym` and `idx` are inverse to each other.
pub proof fn lemma_sym_idx()
    ensures
        forall|i: int| 0 <= i < 16 ==> #[trigger] idx(sym(i)) == i,
        forall|b: u8| is_symbol(b) ==> sym(#[trigger] idx(b)) == b && 0 <= idx(b) < 16,
{
}

/// Whether `b` is an instruction symbol, decided without quantifiers.
pub fn is_instruction(b: u8) -> (r: bool)
    ensures
        r == is_symbol(b),
{
    proof {
        lemma_sym_idx();
    }
    let r = b == PUSH || b == XOR || b == OR || b == AND || b == ADD || b == SUB || b
        == MUL || b == DIV || b == SWITCH || b == EXCHANGE || b == DUP || b == JUMP || b == READ || b
        == WRITE || b == SHL0 || b == SHL1;
    if r {
        assert(sym(idx(b)) == b);
    }
    r
}

/// The symbol of opcode `i`.
pub fn symbol(i: u8) -> (r: u8)
    requires
        i < 16,
    ensures
        r == sym(i as int),
        is_symbol(r),
        idx(r) == i,
{
    match i {
        0 => PUSH,
        1 => XOR,
        2 => OR,
        3 => AND,
        4 => ADD,
        5 => SUB,
        6 => MUL,
        7 => DIV,
        8 => SWITCH,
        9 => EXCHANGE,
        10 => DUP,
        11 => JUMP,
        12 => READ,
        13 => WRITE,
        14 => SHL0,
        _ => SHL1,
    }
}

/// The opcode of symbol `b`.
pub fn opcode(b: u8) -> (r: u8)
    requires
        is_symbol(b),
    ensures
        r as int == idx(b),
        r < 16,
{
    proof {
        lemma_sym_idx();
    }
    if b == PUSH { 0 }
    else if b == XOR { 1 }
    else if b == OR { 2 }
    else if b == AND { 3 }
    else if b == ADD { 4 }
    else if b == SUB { 5 }
    else if b == MUL { 6 }
    else if b == DIV { 7 }
    else if b == SWITCH { 8 }
    else if b == EXCHANGE { 9 }
    else if b == DUP { 10 }
    else if b == JUMP { 11 }
    else if b == READ { 12 }
    else if b == WRITE { 13 }
    else if b == SHL0 { 14 }
    else { 15 }
}

/// Whether every byte of `code` is an instruction symbol.
pub fn is_resolved_code(code: &Vec<u8>) -> (r: bool)
    ensures
        r == is_code(code@),
{
    let mut i: usize = 0;
    while i < code.len()
        invariant
            i <= code@.len(),
            forall|j: int| 0 <= j < i ==> is_symbol(#[trigger] code@[j]),
        decreases code@.len() - i,
    {
        if !is_instruction(code[i]) {
            return false;
        }
        i = i + 1;
    }
    true
}

} // verus!
