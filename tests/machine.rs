use stackofstacks::expander::push_code;
use stackofstacks::vm::{Status, Vm};

/// Runs one instruction on a fresh lenient machine whose active stack holds
/// `stack`, and returns the active stack afterwards.
fn after(op: u8, stack: &[i64]) -> Vec<i64> {
    let mut vm = Vm::new(false);
    vm.stack0 = stack.to_vec();
    let code = vec![op, b'!'];
    let s = vm.step(&code, None);
    assert_eq!(s.status, Status::Running);
    vm.stack0
}

fn binary(op: u8, a: i64, b: i64) -> i64 {
    let r = after(op, &[a, b]);
    assert_eq!(r.len(), 1);
    r[0]
}

#[test]
fn arithmetic_wraps() {
    assert_eq!(binary(b'+', i64::MAX, 1), i64::MIN);
    assert_eq!(binary(b'-', i64::MIN, 1), i64::MAX);
    assert_eq!(binary(b'*', 1 << 62, 4), 0);
    assert_eq!(binary(b'*', -3, 7), -21);
    assert_eq!(binary(b'-', 10, 3), 7);
}

#[test]
fn division_truncates_and_by_zero_is_zero() {
    assert_eq!(binary(b'/', 7, 2), 3);
    assert_eq!(binary(b'/', -7, 2), -3);
    assert_eq!(binary(b'/', 7, -2), -3);
    assert_eq!(binary(b'/', 5, 0), 0);
    assert_eq!(binary(b'/', i64::MIN, -1), i64::MIN);
}

#[test]
fn self_division_tests_for_zero() {
    for x in [1i64, -1, 2, 255, i64::MIN, i64::MAX] {
        assert_eq!(binary(b'/', x, x), 1);
    }
    assert_eq!(binary(b'/', 0, 0), 0);
}

#[test]
fn operand_order_matters_only_for_sub_and_div() {
    let pairs = [(1i64, 2i64), (-5, 12), (i64::MIN, 3), (0xF0, 0x3C)];
    for op in [b'+', b'*', b'|', b'&', b'^'] {
        for (a, b) in pairs {
            assert_eq!(binary(op, a, b), binary(op, b, a));
        }
    }
    assert_ne!(binary(b'-', 1, 2), binary(b'-', 2, 1));
    assert_ne!(binary(b'/', 1, 2), binary(b'/', 2, 1));
}

#[test]
fn bitwise_operations() {
    assert_eq!(binary(b'^', 0b1100, 0b1010), 0b0110);
    assert_eq!(binary(b'|', 0b1100, 0b1010), 0b1110);
    assert_eq!(binary(b'&', 0b1100, 0b1010), 0b1000);
}

#[test]
fn shifts_push_bits() {
    assert_eq!(after(b'0', &[5]), vec![10]);
    assert_eq!(after(b'1', &[5]), vec![11]);
    assert_eq!(after(b'0', &[i64::MIN]), vec![0]);
    assert_eq!(after(b'1', &[]), vec![-1]);
}

#[test]
fn push_and_duplicate() {
    assert_eq!(after(b'!', &[4]), vec![4, -1]);
    assert_eq!(after(b'=', &[4, 9]), vec![4, 9, 9]);
    assert_eq!(after(b'=', &[]), vec![-1, -1]);
}

#[test]
fn lenient_pops_from_empty_stack_give_minus_one() {
    assert_eq!(after(b'+', &[]), vec![-2]);
    assert_eq!(after(b'-', &[5]), vec![-6]);
}

#[test]
fn switch_and_exchange() {
    let mut vm = Vm::new(true);
    vm.stack0 = vec![1, 2];
    vm.stack1 = vec![7];
    let code = b"~$~".to_vec();
    vm.step(&code, None);
    assert_eq!(vm.stack0, vec![1, 7]);
    assert_eq!(vm.stack1, vec![2]);
    vm.step(&code, None);
    assert!(vm.second);
    vm.step(&code, None);
    assert_eq!(vm.stack0, vec![1, 2]);
    assert_eq!(vm.stack1, vec![7]);
    assert_eq!(vm.pc, 0);
}

#[test]
fn strict_underflow_leaves_machine_unchanged() {
    let mut vm = Vm::new(true);
    vm.stack0 = vec![3];
    let s = vm.step(&b"+".to_vec(), None);
    assert_eq!(s.status, Status::Underflow);
    assert_eq!(vm.stack0, vec![3]);
    let mut vm = Vm::new(true);
    vm.stack0 = vec![3];
    let s = vm.step(&b"~".to_vec(), None);
    assert_eq!(s.status, Status::Underflow);
}

#[test]
fn read_and_write() {
    let mut vm = Vm::new(false);
    let code = b"?.".to_vec();
    let s = vm.step(&code, Some(0x68));
    assert_eq!(s.output, None);
    assert_eq!(vm.stack0, vec![0x68]);
    let s = vm.step(&code, Some(0x00));
    assert_eq!(s.output, Some(0x68));
    assert!(vm.stack0.is_empty());
    vm.stack0 = vec![0x1234];
    vm.pc = 1;
    assert_eq!(vm.step(&code, None).output, Some(0x34));
}

#[test]
fn jump_moves_relative_to_next_instruction() {
    let code = b"@!!!!".to_vec();
    let mut vm = Vm::new(true);
    vm.stack0 = vec![2];
    assert_eq!(vm.step(&code, None).status, Status::Running);
    assert_eq!(vm.pc, 3);
    let mut vm = Vm::new(true);
    vm.stack0 = vec![-1];
    assert_eq!(vm.step(&code, None).status, Status::Halted);
    assert_eq!(vm.pc, 0);
    assert!(vm.stack0.is_empty());
}

#[test]
fn jump_backwards_wraps_through_zero() {
    let code = b"!!@".to_vec();
    let mut vm = Vm::new(true);
    vm.stack0 = vec![-3];
    vm.pc = 2;
    assert_eq!(vm.step(&code, None).status, Status::Running);
    assert_eq!(vm.pc, 0);
    let mut vm = Vm::new(true);
    vm.stack0 = vec![-4];
    vm.pc = 2;
    assert_eq!(vm.step(&code, None).status, Status::OutOfCode(u64::MAX));
    let mut vm = Vm::new(false);
    vm.stack0 = vec![-4];
    vm.pc = 2;
    assert_eq!(vm.step(&code, None).status, Status::Running);
    assert_eq!(vm.pc, 0);
}

#[test]
fn expansion_pushes_its_value_on_any_stack() {
    for v in [0i64, 65, -1, -2, i64::MIN, i64::MAX, 0x5555_5555_5555_5555] {
        for second in [false, true] {
            let mut code = push_code(v);
            code.push(b'!');
            let mut vm = Vm::new(true);
            vm.stack0 = vec![10, 20];
            vm.stack1 = vec![30];
            vm.second = second;
            for _ in 0..65 {
                let s = vm.step(&code, None);
                assert_eq!(s.status, Status::Running);
                assert_eq!(s.output, None);
            }
            assert_eq!(vm.pc, 65);
            if second {
                assert_eq!(vm.stack0, vec![10, 20]);
                assert_eq!(vm.stack1, vec![30, v]);
            } else {
                assert_eq!(vm.stack0, vec![10, 20, v]);
                assert_eq!(vm.stack1, vec![30]);
            }
        }
    }
}

#[test]
fn lenient_mode_never_faults() {
    let code = b"!^|&+-*/$~=@?.01.+@".to_vec();
    let mut vm = Vm::new(false);
    for _ in 0..10_000 {
        let s = vm.step(&code, None);
        assert!(s.status == Status::Running || s.status == Status::Halted);
        assert!((vm.pc as usize) < code.len());
        if s.status == Status::Halted {
            break;
        }
    }
}
