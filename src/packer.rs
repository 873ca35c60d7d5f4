//! The packed form of resolved code: two opcodes per byte, the first in
//! the high nibble.
use vstd::prelude::*;
use crate::alphabet::{idx, is_code, is_symbol, lemma_sym_idx, opcode, sym, symbol};

verus! {

/// Code `c` packed: byte `k` holds the opcodes of `c[2k]` and `c[2k+1]`;
/// after an odd length the last low nibble is 0, the opcode of `!`.
pub open spec fn pack(c: Seq<u8>) -> Seq<u8> {
    Seq::new(
        ((c.len() + 1) / 2) as nat,
        |k: int| (16 * idx(c[2 * k]) + if 2 * k + 1 < c.len() { idx(c[2 * k + 1]) } else { 0 }) as u8,
    )
}

/// Bytes `b` unpacked: each byte gives the symbols of its high and its low
/// nibble.
pub open spec fn unpack(b: Seq<u8>) -> Seq<u8> {
    Seq::new(
        2 * b.len(),
        |j: int| if j % 2 == 0 { sym(b[j / 2] as int / 16) } else { sym(b[j / 2] as int % 16) },
    )
}

/// Packs resolved code into bytes.
pub fn compile(code: &Vec<u8>) -> (r: Vec<u8>)
    requires
        is_code(code@),
    ensures
        r@ == pack(code@),
{
    let mut out: Vec<u8> = Vec::new();
    let mut i: usize = 0;
    while i < code.len()
        invariant
            is_code(code@),
            i <= code@.len(),
            i < code@.len() ==> i % 2 == 0,
            out@.len() == (i + 1) / 2,
            forall|k: int| 0 <= k < out@.len() ==> out@[k] == #[trigger] pack(code@)[k],
        decreases code@.len() - i,
    {
        let hi = opcode(code[i]);
        if i + 1 < code.len() {
            let lo = opcode(code[i + 1]);
            out.push(hi * 16 + lo);
            i = i + 2;
        } else {
            out.push(hi * 16);
            i = i + 1;
        }
    }
    assert(out@ =~= pack(code@));
    out
}

/// Unpacks bytes into resolved code.
pub fn bytecode(bytes: &Vec<u8>) -> (r: Vec<u8>)
    ensures
        r@ == unpack(bytes@),
        is_code(r@),
{
    let mut code: Vec<u8> = Vec::new();
    let mut k: usize = 0;
    while k < bytes.len()
        invariant
            k <= bytes@.len(),
            code@.len() == 2 * k,
            forall|j: int| 0 <= j < code@.len() ==> code@[j] == #[trigger] unpack(bytes@)[j],
        decreases bytes@.len() - k,
    {
        let b = bytes[k];
        code.push(symbol(b / 16));
        code.push(symbol(b % 16));
        k = k + 1;
    }
    assert(code@ =~= unpack(bytes@));
    proof {
        lemma_unpack_is_code(bytes@);
    }
    code
}

/// Unpacked bytes are resolved code.
pub proof fn lemma_unpack_is_code(b: Seq<u8>)
    ensures
        is_code(unpack(b)),
{
    assert forall|j: int| 0 <= j < unpack(b).len() implies is_symbol(#[trigger] unpack(b)[j]) by {
        let x = b[j / 2] as int;
        if j % 2 == 0 {
            assert(sym(x / 16) == unpack(b)[j]);
            assert(is_symbol(sym(x / 16)));
        } else {
            assert(is_symbol(sym(x % 16)));
        }
    }
}

/// Unpacking undoes packing on code of even length.
pub proof fn lemma_unpack_pack(c: Seq<u8>)
    requires
        is_code(c),
        c.len() % 2 == 0,
    ensures
        unpack(pack(c)) == c,
{
    lemma_sym_idx();
    assert forall|j: int| 0 <= j < c.len() implies #[trigger] unpack(pack(c))[j] == c[j] by {
        let k = j / 2;
        let hi = idx(c[2 * k]);
        let lo = idx(c[2 * k + 1]);
        assert(is_symbol(c[2 * k]) && is_symbol(c[2 * k + 1]));
        assert(pack(c)[k] as int == 16 * hi + lo);
        assert((16 * hi + lo) / 16 == hi && (16 * hi + lo) % 16 == lo) by (nonlinear_arith)
            requires
                0 <= hi < 16,
                0 <= lo < 16,
        ;
    }
    assert(unpack(pack(c)) =~= c);
}

/// Packing undoes unpacking on any bytes.
pub proof fn lemma_pack_unpack(b: Seq<u8>)
    ensures
        pack(unpack(b)) == b,
{
    lemma_sym_idx();
    assert forall|k: int| 0 <= k < b.len() implies #[trigger] pack(unpack(b))[k] == b[k] by {
        let x = b[k] as int;
        assert(0 <= x / 16 < 16 && 0 <= x % 16 < 16 && 16 * (x / 16) + x % 16 == x) by (nonlinear_arith)
            requires
                0 <= x < 256,
        ;
        assert(unpack(b)[2 * k] == sym(x / 16));
        assert(unpack(b)[2 * k + 1] == sym(x % 16));
    }
    assert(pack(unpack(b)) =~= b);
}

} // verus!
