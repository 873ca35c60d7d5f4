//! The virtual machine: two stacks of 64-bit integers, an active-stack
//! flag and a program counter, advanced one instruction at a time.
//!
//! The machine performs no I/O itself. A step that executes `?` takes the
//! byte that was read (or `None` at end of input) as an argument, and a
//! step that executes `.` hands the byte to write back in its result.
use vstd::prelude::*;
use crate::alphabet::{is_code, ADD, AND, DIV, DUP, EXCHANGE, JUMP, MUL, OR, PUSH, READ, SHL0, SHL1, SUB, SWITCH, WRITE, XOR};
use vstd::math::abs;
use vstd::arithmetic::div_mod::{lemma_div_by_self, lemma_div_is_ordered_by_denominator, lemma_div_pos_is_pos};

verus! {

/// `2^64`, the modulus of all machine arithmetic.
pub open spec fn modulus() -> int {
    0x1_0000_0000_0000_0000
}

/// `x` reduced modulo `2^64` into the range of `i64`.
pub open spec fn wrap64(x: int) -> i64 {
    let r = x % modulus();
    if r > i64::MAX {
        (r - modulus()) as i64
    } else {
        r as i64
    }
}

/// Integer division rounding towards zero.
pub open spec fn trunc_div(a: int, b: int) -> int {
    let q: int = abs(a) as int / abs(b) as int;
    if (a < 0) == (b < 0) {
        q
    } else {
        -q
    }
}

/// The result of binary instruction `op` on operands `a` (popped second)
/// and `b` (popped first).
pub open spec fn binop(op: u8, a: i64, b: i64) -> i64 {
    if op == XOR {
        a ^ b
    } else if op == OR {
        a | b
    } else if op == AND {
        a & b
    } else if op == ADD {
        wrap64(a + b)
    } else if op == SUB {
        wrap64(a - b)
    } else if op == MUL {
        wrap64(a * b)
    } else if b == 0 {
        0
    } else {
        wrap64(trunc_div(a as int, b as int))
    }
}

/// The instructions that pop two operands and push one result.
pub open spec fn is_binary(op: u8) -> bool {
    op == XOR || op == OR || op == AND || op == ADD || op == SUB || op == MUL || op == DIV
}

/// The instructions that pop one value from the active stack.
pub open spec fn is_unary(op: u8) -> bool {
    op == DUP || op == JUMP || op == WRITE || op == SHL0 || op == SHL1
}

/// The state of a machine.
pub struct Machine {
    pub s0: Seq<i64>,
    pub s1: Seq<i64>,
    /// Whether the second stack is the active one.
    pub second: bool,
    pub pc: int,
    pub strict: bool,
}

/// Why a machine stopped, or `Running` if it did not.
#[derive(Clone, Copy, Debug, PartialEq, Eq, Structural)]
pub enum Status {
    Running,
    /// `@` popped `-1`.
    Halted,
    /// Strict mode: an instruction needed a value from an empty stack.
    Underflow,
    /// Strict mode: the program counter left the code; holds its value.
    OutOfCode(u64),
}

/// What one step did: the byte it wrote, if any, and the machine's status.
#[derive(Clone, Copy, Debug)]
pub struct Step {
    pub output: Option<u8>,
    pub status: Status,
}

pub open spec fn active(m: Machine) -> Seq<i64> {
    if m.second { m.s1 } else { m.s0 }
}

pub open spec fn passive(m: Machine) -> Seq<i64> {
    if m.second { m.s0 } else { m.s1 }
}

pub open spec fn with_active(m: Machine, s: Seq<i64>) -> Machine {
    if m.second { Machine { s1: s, ..m } } else { Machine { s0: s, ..m } }
}

pub open spec fn with_passive(m: Machine, s: Seq<i64>) -> Machine {
    if m.second { Machine { s0: s, ..m } } else { Machine { s1: s, ..m } }
}

/// The value a pop yields: the top, or `-1` from an empty stack.
pub open spec fn top(s: Seq<i64>) -> i64 {
    if s.len() == 0 { -1i64 } else { s.last() }
}

/// The stack after a pop.
pub open spec fn rest(s: Seq<i64>) -> Seq<i64> {
    if s.len() == 0 { s } else { s.drop_last() }
}

/// Whether executing `op` in `m` is a strict-mode underflow.
pub open spec fn underflows(m: Machine, op: u8) -> bool {
    m.strict && if is_binary(op) {
        active(m).len() < 2
    } else if op == EXCHANGE {
        m.s0.len() == 0 || m.s1.len() == 0
    } else if is_unary(op) {
        active(m).len() == 0
    } else {
        false
    }
}

/// Moving the program counter to `target`: past the end of the code it
/// restarts at 0, which strict mode reports as a fault.
pub open spec fn goto(m: Machine, target: int, len: int, output: Option<u8>) -> (Machine, Step) {
    if target < len {
        (Machine { pc: target, ..m }, Step { output, status: Status::Running })
    } else if m.strict {
        (Machine { pc: 0, ..m }, Step { output, status: Status::OutOfCode(target as u64) })
    } else {
        (Machine { pc: 0, ..m }, Step { output, status: Status::Running })
    }
}

/// The program counter after the instruction at `pc`, having jumped by
/// `delta`; the arithmetic wraps in 64 bits.
pub open spec fn next_pc(pc: int, delta: int) -> int {
    (pc + delta + 1) % modulus()
}

/// One step of machine `m` on `code`; `input` is what a `?` reads.
pub open spec fn step_spec(m: Machine, code: Seq<u8>, input: Option<u8>) -> (Machine, Step) {
    let op = code[m.pc];
    let a = active(m);
    let len = code.len() as int;
    let next = next_pc(m.pc, 0);
    if underflows(m, op) {
        (m, Step { output: None, status: Status::Underflow })
    } else if is_binary(op) {
        let y = top(a);
        let x = top(rest(a));
        goto(with_active(m, rest(rest(a)).push(binop(op, x, y))), next, len, None)
    } else if op == PUSH {
        goto(with_active(m, a.push(-1i64)), next, len, None)
    } else if op == SWITCH {
        goto(Machine { second: !m.second, ..m }, next, len, None)
    } else if op == EXCHANGE {
        let p = passive(m);
        let m2 = with_passive(with_active(m, rest(a).push(top(p))), rest(p).push(top(a)));
        goto(m2, next, len, None)
    } else if op == DUP {
        goto(with_active(m, rest(a).push(top(a)).push(top(a))), next, len, None)
    } else if op == JUMP {
        let m2 = with_active(m, rest(a));
        if top(a) == -1 {
            (m2, Step { output: None, status: Status::Halted })
        } else {
            goto(m2, next_pc(m.pc, top(a) as int), len, None)
        }
    } else if op == READ {
        let v: i64 = match input {
            Some(b) => b as i64,
            None => -1i64,
        };
        goto(with_active(m, a.push(v)), next, len, None)
    } else if op == WRITE {
        goto(with_active(m, rest(a)), next, len, Some((top(a) & 0xff) as u8))
    } else if op == SHL0 {
        goto(with_active(m, rest(a).push(top(a) << 1)), next, len, None)
    } else {
        goto(with_active(m, rest(a).push((top(a) << 1) | 1)), next, len, None)
    }
}


/// What a run left: the machine, the bytes written, the status it stopped
/// with (`Running` when the step budget ran out) and the unread input.
pub struct Trace {
    pub machine: Machine,
    pub output: Seq<u8>,
    pub status: Status,
    pub input: Seq<u8>,
}

/// The byte a step writes, as a sequence of zero or one bytes.
pub open spec fn written(s: Step) -> Seq<u8> {
    match s.output {
        Some(b) => seq![b],
        None => Seq::empty(),
    }
}

/// Runs `m` on `code` for at most `fuel` steps; each `?` consumes the next
/// byte of `input`, or reads `None` once it is exhausted.
pub open spec fn run_spec(m: Machine, code: Seq<u8>, input: Seq<u8>, fuel: nat) -> Trace
    decreases fuel,
{
    if fuel == 0 {
        Trace { machine: m, output: Seq::empty(), status: Status::Running, input }
    } else {
        let inb = if input.len() > 0 { Some(input[0]) } else { None };
        let (m2, s) = step_spec(m, code, inb);
        let left = if code[m.pc] == READ && input.len() > 0 { input.drop_first() } else { input };
        if s.status == Status::Running {
            let t = run_spec(m2, code, left, (fuel - 1) as nat);
            Trace { output: written(s) + t.output, ..t }
        } else {
            Trace { machine: m2, output: written(s), status: s.status, input: left }
        }
    }
}

/// The machine a run starts from.
pub open spec fn initial(strict: bool) -> Machine {
    Machine { s0: Seq::empty(), s1: Seq::empty(), second: false, pc: 0, strict }
}

/// A machine: its two stacks, which one is active, the program counter and
/// the error policy.
pub struct Vm {
    pub stack0: Vec<i64>,
    pub stack1: Vec<i64>,
    pub second: bool,
    pub pc: u64,
    pub strict: bool,
}

impl View for Vm {
    type V = Machine;

    open spec fn view(&self) -> Machine {
        Machine {
            s0: self.stack0@,
            s1: self.stack1@,
            second: self.second,
            pc: self.pc as int,
            strict: self.strict,
        }
    }
}

/// `wrap64` on values at most one modulus away from the range of `i64`.
pub proof fn lemma_wrap64_small(x: int)
    requires
        -modulus() <= x < modulus(),
    ensures
        wrap64(x) == (if x > i64::MAX { x - modulus() } else if x < i64::MIN { x + modulus() } else { x }),
{
}


proof fn lemma_mod_range(y: int)
    requires
        -modulus() <= y < 2 * modulus(),
    ensures
        y % modulus() == (if y < 0 { y + modulus() } else if y >= modulus() { y - modulus() } else { y }),
{
}


/// A quotient is no larger than its dividend, and reaches `2^63` only for
/// `i64::MIN / -1`.
proof fn lemma_trunc_div_bound(x: i64, y: i64)
    requires
        y != 0,
    ensures
        abs(trunc_div(x as int, y as int)) <= abs(x as int),
        !(x == i64::MIN && y == -1) ==> i64::MIN <= trunc_div(x as int, y as int) <= i64::MAX,
        (x == i64::MIN && y == -1) ==> trunc_div(x as int, y as int) == 0x8000_0000_0000_0000,
{
    let ax = abs(x as int) as int;
    let ay = abs(y as int) as int;
    lemma_div_is_ordered_by_denominator(ax, 1, ay);
    lemma_div_pos_is_pos(ax, ay);
    if ay >= 2 {
        lemma_div_is_ordered_by_denominator(ax, 2, ay);
    }
}

/// `binop` computed.
fn apply_binop(op: u8, x: i64, y: i64) -> (r: i64)
    requires
        is_binary(op),
    ensures
        r == binop(op, x, y),
{
    if op == XOR {
        x ^ y
    } else if op == OR {
        x | y
    } else if op == AND {
        x & y
    } else if op == ADD {
        proof {
            lemma_wrap64_small(x + y);
        }
        x.wrapping_add(y)
    } else if op == SUB {
        proof {
            lemma_wrap64_small(x - y);
        }
        x.wrapping_sub(y)
    } else if op == MUL {
        x.wrapping_mul(y)
    } else if y == 0 {
        0
    } else {
        match x.checked_div(y) {
            Some(q) => {
                proof {
                    lemma_wrap64_small(trunc_div(x as int, y as int));
                }
                q
            },
            None => {
                proof {
                    lemma_trunc_div_bound(x, y);
                    lemma_wrap64_small(trunc_div(x as int, y as int));
                }
                i64::MIN
            },
        }
    }
}

/// The program counter after a jump by `x` from `pc`.
fn jump_target(pc: u64, x: i64) -> (r: u64)
    ensures
        r as int == next_pc(pc as int, x as int),
{
    let w = pc.wrapping_add_signed(x);
    proof {
        lemma_mod_range(pc + x + 1);
    }
    w.wrapping_add(1)
}

impl Vm {
    /// A machine with empty stacks, the first stack active and the program
    /// counter at 0.
    pub fn new(strict: bool) -> (r: Vm)
        ensures
            r@ == initial(strict),
    {
        Vm { stack0: Vec::new(), stack1: Vec::new(), second: false, pc: 0, strict }
    }

    /// The machine is ready to run `code`.
    pub open spec fn wf(&self, code: Seq<u8>) -> bool {
        is_code(code) && self.pc < code.len()
    }

    fn underflows(&self, op: u8) -> (r: bool)
        ensures
            r == underflows(self@, op),
    {
        let n = if self.second { self.stack1.len() } else { self.stack0.len() };
        self.strict && if op == XOR || op == OR || op == AND || op == ADD || op == SUB || op == MUL
            || op == DIV {
            n < 2
        } else if op == EXCHANGE {
            self.stack0.len() == 0 || self.stack1.len() == 0
        } else if op == DUP || op == JUMP || op == WRITE || op == SHL0 || op == SHL1 {
            n == 0
        } else {
            false
        }
    }

    fn goto(&mut self, target: u64, len: usize, output: Option<u8>) -> (r: Step)
        ensures
            (final(self)@, r) == goto(old(self)@, target as int, len as int, output),
    {
        if (target as u128) < (len as u128) {
            self.pc = target;
            Step { output, status: Status::Running }
        } else {
            self.pc = 0;
            if self.strict {
                Step { output, status: Status::OutOfCode(target) }
            } else {
                Step { output, status: Status::Running }
            }
        }
    }

    /// Executes the instruction at the program counter. `input` is the byte
    /// that a `?` there reads, `None` at end of input; other instructions
    /// ignore it.
    pub fn step(&mut self, code: &Vec<u8>, input: Option<u8>) -> (r: Step)
        requires
            old(self).wf(code@),
        ensures
            (final(self)@, r) == step_spec(old(self)@, code@, input),
            final(self).wf(code@),
    {
        let op = code[self.pc as usize];
        let len = code.len();
        if self.underflows(op) {
            return Step { output: None, status: Status::Underflow };
        }
        let next = self.pc + 1;
        assert(next_pc(self.pc as int, 0) == next) by {
            assert((self.pc + 1) % modulus() == self.pc + 1);
        }
        if op == XOR || op == OR || op == AND || op == ADD || op == SUB || op == MUL || op == DIV {
            let y = self.pop_active();
            let x = self.pop_active();
            let v = apply_binop(op, x, y);
            self.push_active(v);
            self.goto(next, len, None)
        } else if op == PUSH {
            self.push_active(-1);
            self.goto(next, len, None)
        } else if op == SWITCH {
            self.second = !self.second;
            self.goto(next, len, None)
        } else if op == EXCHANGE {
            let x = self.pop_active();
            let y = self.pop_passive();
            self.push_active(y);
            self.push_passive(x);
            self.goto(next, len, None)
        } else if op == DUP {
            let x = self.pop_active();
            self.push_active(x);
            self.push_active(x);
            self.goto(next, len, None)
        } else if op == JUMP {
            let x = self.pop_active();
            if x == -1 {
                Step { output: None, status: Status::Halted }
            } else {
                let target = jump_target(self.pc, x);
                self.goto(target, len, None)
            }
        } else if op == READ {
            let v: i64 = match input {
                Some(b) => b as i64,
                None => -1,
            };
            self.push_active(v);
            self.goto(next, len, None)
        } else if op == WRITE {
            let x = self.pop_active();
            let b = (x & 0xff) as u8;
            self.goto(next, len, Some(b))
        } else if op == SHL0 {
            let x = self.pop_active();
            self.push_active(x << 1);
            self.goto(next, len, None)
        } else {
            let x = self.pop_active();
            self.push_active((x << 1) | 1);
            self.goto(next, len, None)
        }
    }

    fn pop_active(&mut self) -> (r: i64)
        ensures
            r == top(active(old(self)@)),
            final(self)@ == with_active(old(self)@, rest(active(old(self)@))),
    {
        let v = if self.second { self.stack1.pop() } else { self.stack0.pop() };
        match v {
            Some(x) => x,
            None => -1i64,
        }
    }

    fn pop_passive(&mut self) -> (r: i64)
        ensures
            r == top(passive(old(self)@)),
            final(self)@ == with_passive(old(self)@, rest(passive(old(self)@))),
    {
        let v = if self.second { self.stack0.pop() } else { self.stack1.pop() };
        match v {
            Some(x) => x,
            None => -1i64,
        }
    }

    fn push_active(&mut self, x: i64)
        ensures
            final(self)@ == with_active(old(self)@, active(old(self)@).push(x)),
    {
        if self.second { self.stack1.push(x) } else { self.stack0.push(x) }
    }

    fn push_passive(&mut self, x: i64)
        ensures
            final(self)@ == with_passive(old(self)@, passive(old(self)@).push(x)),
    {
        if self.second { self.stack0.push(x) } else { self.stack1.push(x) }
    }
}


/// Only `?` looks at the input byte it is given.
proof fn lemma_input_unused(m: Machine, code: Seq<u8>, i1: Option<u8>, i2: Option<u8>)
    requires
        0 <= m.pc < code.len(),
        code[m.pc] != READ,
    ensures
        step_spec(m, code, i1) == step_spec(m, code, i2),
{
}


/// Swapping the operands of a binary instruction changes its result only
/// for `-` and `/`: `^`, `|`, `&`, `+` and `*` commute, while `-` and `/`
/// each have operands whose order matters.
pub proof fn lemma_operand_order(op: u8)
    requires
        is_binary(op),
    ensures
        op != SUB && op != DIV ==> forall|a: i64, b: i64| #[trigger] binop(op, a, b) == binop(op, b, a),
        op == SUB || op == DIV ==> exists|a: i64, b: i64| #[trigger] binop(op, a, b) != binop(op, b, a),
{
    if op == SUB {
        lemma_wrap64_small(1);
        lemma_wrap64_small(-1);
        assert(binop(op, 1, 0) != binop(op, 0, 1));
    } else if op == DIV {
        lemma_wrap64_small(0);
        lemma_wrap64_small(2);
        assert(trunc_div(1, 2) == 0);
        assert(trunc_div(2, 1) == 2);
        assert(binop(op, 1, 2) != binop(op, 2, 1));
    } else {
        assert forall|a: i64, b: i64| #[trigger] binop(op, a, b) == binop(op, b, a) by {
            if op == XOR {
                assert(a ^ b == b ^ a) by (bit_vector);
            } else if op == OR {
                assert(a | b == b | a) by (bit_vector);
            } else if op == AND {
                assert(a & b == b & a) by (bit_vector);
            } else if op == MUL {
                assert(a * b == b * a) by (nonlinear_arith);
            }
        }
    }
}

/// `x / x` is 1 for every `x` but 0, and 0 for 0.
pub proof fn lemma_self_division(x: i64)
    ensures
        binop(DIV, x, x) == (if x != 0 { 1i64 } else { 0i64 }),
{
    if x != 0 {
        lemma_div_by_self(abs(x as int) as int);
        lemma_wrap64_small(1);
    }
}

/// In lenient mode a step never faults: the machine runs on, or halts,
/// and it halts exactly when `@` pops `-1`. The program counter stays
/// within the code.
pub proof fn lemma_lenient_step(m: Machine, code: Seq<u8>, input: Option<u8>)
    requires
        !m.strict,
        0 <= m.pc < code.len(),
    ensures
        ({
            let (m2, s) = step_spec(m, code, input);
            &&& s.status == Status::Running || s.status == Status::Halted
            &&& s.status == Status::Halted <==> (code[m.pc] == JUMP && top(active(m)) == -1)
            &&& 0 <= m2.pc < code.len()
            &&& !m2.strict
        }),
{
}

/// In lenient mode no run of any length ends in a fault: it either halts
/// through `@` with `-1` or is still running.
pub proof fn lemma_lenient_run(m: Machine, code: Seq<u8>, input: Seq<u8>, fuel: nat)
    requires
        !m.strict,
        0 <= m.pc < code.len(),
    ensures
        run_spec(m, code, input, fuel).status == Status::Running
            || run_spec(m, code, input, fuel).status == Status::Halted,
    decreases fuel,
{
    if fuel > 0 {
        let inb = if input.len() > 0 { Some(input[0]) } else { None };
        let (m2, s) = step_spec(m, code, inb);
        let left = if code[m.pc] == READ && input.len() > 0 { input.drop_first() } else { input };
        lemma_lenient_step(m, code, inb);
        lemma_lenient_run(m2, code, left, (fuel - 1) as nat);
    }
}

/// The bytes written and the final status of a bounded run.
#[derive(Debug)]
pub struct Outcome {
    pub output: Vec<u8>,
    pub status: Status,
}

/// Runs `code` from a fresh machine for at most `fuel` steps, reading
/// `input` for `?`. A status of `Running` means the budget ran out.
pub fn execute(code: &Vec<u8>, input: &Vec<u8>, strict: bool, fuel: u64) -> (r: Outcome)
    requires
        is_code(code@),
        code.len() > 0,
    ensures
        r.output@ == run_spec(initial(strict), code@, input@, fuel as nat).output,
        r.status == run_spec(initial(strict), code@, input@, fuel as nat).status,
{
    let ghost whole = run_spec(initial(strict), code@, input@, fuel as nat);
    let mut vm = Vm::new(strict);
    let mut out: Vec<u8> = Vec::new();
    let mut pos: usize = 0;
    let mut left: u64 = fuel;
    let n = code.len();
    assert(input@.skip(0) =~= input@);
    assert(out@ + whole.output =~= whole.output);
    while left > 0
        invariant
            vm.wf(code@),
            n == code@.len(),
            whole == run_spec(initial(strict), code@, input@, fuel as nat),
            pos <= input.len(),
            whole.output == out@ + run_spec(vm@, code@, input@.skip(pos as int), left as nat).output,
            whole.status == run_spec(vm@, code@, input@.skip(pos as int), left as nat).status,
        decreases left,
    {
        let ghost before = vm@;
        let ghost rest_in = input@.skip(pos as int);
        let ghost old_out = out@;
        let reads = code[vm.pc as usize] == READ;
        let inb = if reads && pos < input.len() { Some(input[pos]) } else { None };
        let s = vm.step(code, inb);
        proof {
            let inb_spec = if rest_in.len() > 0 { Some(rest_in[0]) } else { None };
            if !reads {
                lemma_input_unused(before, code@, inb, inb_spec);
            } else {
                assert(inb == inb_spec);
            }
            let left_spec = if reads && rest_in.len() > 0 { rest_in.drop_first() } else { rest_in };
            let t = run_spec(before, code@, rest_in, left as nat);
            assert(step_spec(before, code@, inb_spec) == (vm@, s));
            if s.status == Status::Running {
                assert(t.output == written(s) + run_spec(vm@, code@, left_spec, (left - 1) as nat).output);
                assert(t.status == run_spec(vm@, code@, left_spec, (left - 1) as nat).status);
            } else {
                assert(t.output == written(s));
                assert(t.status == s.status);
            }
        }
        match s.output {
            Some(b) => out.push(b),
            None => {},
        }
        assert(out@ =~= old_out + written(s));
        if reads && pos < input.len() {
            proof {
                assert(rest_in.drop_first() =~= input@.skip(pos + 1));
            }
            pos = pos + 1;
        }
        left = left - 1;
        match s.status {
            Status::Running => {
                proof {
                    let t = run_spec(vm@, code@, input@.skip(pos as int), left as nat);
                    assert(out@ + t.output =~= old_out + (written(s) + t.output));
                }
            },
            _ => {
                proof {
                    assert(out@ =~= old_out + written(s));
                    assert(whole.output =~= out@);
                }
                return Outcome { output: out, status: s.status };
            },
        }
    }
    proof {
        let t = run_spec(vm@, code@, input@.skip(pos as int), left as nat);
        assert(left == 0);
        assert(t.output == Seq::<u8>::empty());
        assert(t.status == Status::Running);
        assert(whole.output =~= out@);
    }
    Outcome { output: out, status: Status::Running }
}

} // verus!
