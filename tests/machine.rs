use petty_static::binop::BinOp;
use petty_static::bytecode::{decode, read, Decoded, Instruction, Pool};
use petty_static::error::VmError;
use petty_static::value::{FloatOp, Number, Text, Value};
use petty_static::vm::{Halt, Vm};

fn run_bytes<'a>(bytes: &'a [u8], constants: &'a [Value<'a>]) -> (Result<Halt, VmError>, Vec<Value<'a>>) {
    let mut vm = Vm::new(bytes, constants);
    let r = vm.run();
    (r, vm.into_stack())
}

fn run_pool<'a>(pool: &'a Pool<'a>) -> (Result<Halt, VmError>, Vec<Value<'a>>) {
    run_bytes(pool.as_bytes(), pool.constants())
}

fn text(s: &str) -> Value<'_> {
    Value::Str(Text::Borrowed(s))
}

#[test]
fn invalid_opcode_is_a_decode_error() {
    let (r, stack) = run_bytes(&[9], &[]);
    assert_eq!(r, Err(VmError::InvalidOpcode(9)));
    assert!(stack.is_empty());
    assert_eq!(Instruction::from_opcode(9), None);
    assert_eq!(Instruction::from_opcode(8), Some(Instruction::PopJumpIfFalse));
}

#[test]
fn truncated_final_instruction_is_a_decode_error() {
    let mut pool = Pool::new();
    pool.push_int(7);
    let mut bytes = pool.as_bytes().to_vec();
    bytes.push(4);
    bytes.extend_from_slice(&[1, 2, 3]);
    let (r, stack) = run_bytes(&bytes, &[]);
    assert_eq!(r, Err(VmError::Truncated));
    assert_eq!(stack, vec![Value::Int(7)]);

    let (r, _) = run_bytes(&[6, b'a', b'b'], &[]);
    assert_eq!(r, Err(VmError::Truncated));
}

#[test]
fn invalid_utf8_is_a_decode_error() {
    let (r, _) = run_bytes(&[6, 0xff, 0xfe, 0], &[]);
    assert_eq!(r, Err(VmError::InvalidUtf8));
}

#[test]
fn multibyte_text_round_trips() {
    let mut pool = Pool::new();
    pool.push_str("héllo, wörld ✓");
    let (r, stack) = run_pool(&pool);
    assert_eq!(r, Ok(Halt::Finished));
    assert_eq!(stack, vec![text("héllo, wörld ✓")]);
    assert!(matches!(&stack[0], Value::Str(Text::Borrowed(_))));
}

#[test]
fn invalid_operator_tag_is_a_decode_error() {
    let (r, _) = run_bytes(&[2, 11], &[]);
    assert_eq!(r, Err(VmError::InvalidOperator(11)));
    assert_eq!(BinOp::from_tag(11), None);
    assert_eq!(BinOp::from_tag(2), Some(BinOp::Mul));
}

#[test]
fn constant_index_out_of_range() {
    let (r, _) = run_bytes(&[3, 5, 0, 0, 0], &[]);
    assert_eq!(r, Err(VmError::BadConstant(5)));
}

#[test]
fn jump_targets_must_be_instruction_starts() {
    let mut pool = Pool::new();
    pool.push_int(1);
    pool.jump_flag(4);
    let (r, stack) = run_pool(&pool);
    assert_eq!(r, Err(VmError::BadJumpTarget(4)));
    assert_eq!(stack, vec![Value::Int(1)]);

    let mut pool = Pool::new();
    pool.jump_flag(100);
    let (r, _) = run_pool(&pool);
    assert_eq!(r, Err(VmError::BadJumpTarget(100)));
}

#[test]
fn stack_underflow() {
    let mut pool = Pool::new();
    pool.push_dup();
    assert_eq!(run_pool(&pool).0, Err(VmError::StackUnderflow));

    let mut pool = Pool::new();
    pool.push_int(1);
    pool.push_binop(BinOp::Add);
    let (r, stack) = run_pool(&pool);
    assert_eq!(r, Err(VmError::StackUnderflow));
    assert_eq!(stack, vec![Value::Int(1)]);

    let mut pool = Pool::new();
    let jump = pool.emit_pop_jump_if_false();
    pool.patch_jump(jump);
    assert_eq!(run_pool(&pool).0, Err(VmError::StackUnderflow));
}

#[test]
fn unsupported_operations() {
    let mut pool = Pool::new();
    pool.push_int(6);
    pool.push_int(3);
    pool.push_binop(BinOp::Div);
    let (r, stack) = run_pool(&pool);
    assert_eq!(r, Err(VmError::UnsupportedOperator(BinOp::Div)));
    assert_eq!(stack, vec![Value::Int(6), Value::Int(3)]);

    let mut pool = Pool::new();
    pool.push_str("a");
    pool.push_str("b");
    pool.push_binop(BinOp::Sub);
    assert_eq!(run_pool(&pool).0, Err(VmError::UnsupportedOperands(BinOp::Sub)));

    let mut pool = Pool::new();
    pool.push_str("a");
    pool.push_float(1.0f64.to_bits());
    pool.push_binop(BinOp::Mul);
    assert_eq!(run_pool(&pool).0, Err(VmError::UnsupportedOperands(BinOp::Mul)));
}

#[test]
fn negative_repeat_fails() {
    let mut pool = Pool::new();
    pool.push_str("ab");
    pool.push_int(-1);
    pool.push_binop(BinOp::Mul);
    assert_eq!(run_pool(&pool).0, Err(VmError::NegativeRepeat(-1)));
}

#[test]
fn text_repetition_three_times() {
    let mut pool = Pool::new();
    pool.push_str("ab");
    pool.push_int(3);
    pool.push_binop(BinOp::Mul);
    let (r, stack) = run_pool(&pool);
    assert_eq!(r, Ok(Halt::Finished));
    assert_eq!(stack, vec![Value::Str(Text::Owned("ababab".to_string()))]);

    let mut pool = Pool::new();
    pool.push_int(0);
    pool.push_str("ab");
    pool.push_binop(BinOp::Mul);
    assert_eq!(run_pool(&pool).1, vec![text("")]);
}

#[test]
fn text_concatenation_is_owned() {
    let mut pool = Pool::new();
    pool.push_str("Hello, ");
    pool.push_str("World!");
    pool.push_binop(BinOp::Add);
    let (r, stack) = run_pool(&pool);
    assert_eq!(r, Ok(Halt::Finished));
    assert_eq!(stack, vec![text("Hello, World!")]);
    assert!(matches!(&stack[0], Value::Str(Text::Owned(s)) if s == "Hello, World!"));
}

#[test]
fn integer_arithmetic_wraps() {
    let mut pool = Pool::new();
    pool.push_int(i64::MAX);
    pool.push_int(1);
    pool.push_binop(BinOp::Add);
    pool.push_int(i64::MIN);
    pool.push_int(1);
    pool.push_binop(BinOp::Sub);
    pool.push_int(i64::MAX);
    pool.push_int(2);
    pool.push_binop(BinOp::Mul);
    pool.push_int(-7);
    pool.push_int(6);
    pool.push_binop(BinOp::Mul);
    let (r, stack) = run_pool(&pool);
    assert_eq!(r, Ok(Halt::Finished));
    assert_eq!(
        stack,
        vec![Value::Int(i64::MIN), Value::Int(i64::MAX), Value::Int(-2), Value::Int(-42)]
    );
}

#[test]
fn mixed_arithmetic_is_handed_to_the_caller() {
    let half = 0.5f64.to_bits();
    let mut pool = Pool::new();
    pool.push_int(2);
    pool.push_float(half);
    pool.push_binop(BinOp::Add);
    pool.push_int(1);
    let mut vm = Vm::new(pool.as_bytes(), pool.constants());
    let r = vm.run();
    assert_eq!(
        r,
        Ok(Halt::Float(FloatOp { op: BinOp::Add, lhs: Number::Int(2), rhs: Number::Float(half) }))
    );
    assert!(vm.stack().is_empty());
    vm.resume((2.0f64 + 0.5).to_bits());
    assert_eq!(vm.run(), Ok(Halt::Finished));
    assert_eq!(vm.stack(), &[Value::Float(2.5f64.to_bits()), Value::Int(1)][..]);
}

#[test]
fn constants_are_deduplicated() {
    let mut pool = Pool::new();
    let a = pool.push_const(Value::Int(42));
    let b = pool.push_const(Value::Int(42));
    assert_eq!(a, b);
    assert_eq!(pool.constants().len(), 1);
    let c = pool.push_const(text("x"));
    let d = pool.push_const(Value::Str(Text::Owned("x".to_string())));
    assert_eq!(c, 1);
    assert_eq!(c, d);
    assert_eq!(pool.constants().len(), 2);
    assert_eq!(pool.find_const(&Value::Int(42)), Some(0));
    assert_eq!(pool.find_const(&Value::Int(43)), None);
    assert_eq!(pool.get_const(1), Some(&text("x")));
    assert_eq!(pool.get_const(2), None);
    let (r, stack) = run_pool(&pool);
    assert_eq!(r, Ok(Halt::Finished));
    assert_eq!(stack, vec![Value::Int(42), Value::Int(42), text("x"), text("x")]);
}

#[test]
fn patched_jump_points_at_the_end() {
    let mut pool = Pool::new();
    let h = pool.emit_jump();
    assert_eq!(h, 1);
    assert_eq!(pool.len(), 9);
    pool.push_int(5);
    pool.patch_jump(h);
    assert_eq!(&pool.as_bytes()[1..9], &18u64.to_le_bytes());
    let (r, stack) = run_pool(&pool);
    assert_eq!(r, Ok(Halt::Finished));
    assert!(stack.is_empty());
}

fn push_one(mut body: Pool<'static>) -> Pool<'static> {
    body.push_int(1);
    body
}

#[test]
fn text_truthiness_is_inverted() {
    let mut pool = Pool::new();
    pool.push_str("");
    pool.push_if(push_one);
    pool.push_str("x");
    pool.push_if(push_one);
    let (r, stack) = run_pool(&pool);
    assert_eq!(r, Ok(Halt::Finished));
    assert_eq!(stack, vec![Value::Int(1)]);
}

#[test]
fn float_truthiness() {
    let mut pool = Pool::new();
    pool.push_float((-0.0f64).to_bits());
    pool.push_if(push_one);
    pool.push_float(0.0f64.to_bits());
    pool.push_if(push_one);
    pool.push_float(f64::NAN.to_bits());
    pool.push_if(push_one);
    let (r, stack) = run_pool(&pool);
    assert_eq!(r, Ok(Halt::Finished));
    assert_eq!(stack, vec![Value::Int(1)]);
}

#[test]
fn while_loop_counts_down_from_four() {
    let mut pool = Pool::new();
    pool.push_int(4);
    pool.push_while_loop(
        |mut condition| {
            condition.push_int(1);
            condition.push_binop(BinOp::Sub);
            condition.push_dup();
            condition
        },
        |mut body| {
            body.push_dup();
            body
        },
    );
    let (r, stack) = run_pool(&pool);
    assert_eq!(r, Ok(Halt::Finished));
    assert_eq!(
        stack,
        vec![Value::Int(3), Value::Int(2), Value::Int(1), Value::Int(0)]
    );
}

#[test]
fn while_loop_with_false_condition_runs_zero_times() {
    let mut pool = Pool::new();
    pool.push_while_loop(
        |mut condition| {
            condition.push_int(0);
            condition
        },
        |mut body| {
            body.push_str("never");
            body
        },
    );
    let (r, stack) = run_pool(&pool);
    assert_eq!(r, Ok(Halt::Finished));
    assert!(stack.is_empty());
}

#[test]
fn nested_if_inside_a_body_lands_on_the_right_offsets() {
    let mut pool = Pool::new();
    pool.push_const(Value::Int(7));
    pool.push_int(1);
    pool.push_if(|mut outer| {
        outer.push_int(0);
        outer.push_if_or_else(
            |mut t| {
                t.push_const(text("then"));
                t
            },
            |mut e| {
                e.push_const(text("else"));
                e
            },
        );
        outer
    });
    pool.push_const(Value::Int(7));
    let (r, stack) = run_pool(&pool);
    assert_eq!(r, Ok(Halt::Finished));
    assert_eq!(stack, vec![Value::Int(7), text("else"), Value::Int(7)]);
    assert_eq!(pool.constants().len(), 3);
}

#[test]
fn instruction_sizes() {
    assert_eq!(Instruction::LoadStr.size(), None);
    assert_eq!(Instruction::Nop.size(), Some(0));
    assert_eq!(Instruction::Dup.size(), Some(0));
    assert_eq!(Instruction::BinOp.size(), Some(1));
    assert_eq!(Instruction::LoadConst.size(), Some(4));
    assert_eq!(Instruction::LoadInt.size(), Some(8));
    assert_eq!(Instruction::LoadFloat.size(), Some(8));
    assert_eq!(Instruction::Jump.size(), Some(8));
    assert_eq!(Instruction::PopJumpIfFalse.size(), Some(8));
    assert_eq!(Instruction::LoadStr.opcode(), 6);
}

#[test]
fn decoding_and_reading() {
    let mut pool = Pool::new();
    pool.push_str("hi");
    pool.push_int(-2);
    let bytes = pool.as_bytes();
    match decode(bytes, 0) {
        Ok((Decoded::LoadStr(s), next)) => {
            assert_eq!(s, "hi");
            assert_eq!(next, 4);
        }
        other => panic!("unexpected {other:?}"),
    }
    match decode(bytes, 4) {
        Ok((Decoded::LoadInt(v), next)) => {
            assert_eq!(v, -2);
            assert_eq!(next, 13);
        }
        other => panic!("unexpected {other:?}"),
    }
    let raw: [u8; 8] = read(bytes, 5);
    assert_eq!(i64::from_le_bytes(raw), -2);

    let mut vm = Vm::new(bytes, &[]);
    assert_eq!(vm.read_instruction(), Some(Instruction::LoadStr));
    assert_eq!(vm.read::<2>(), *b"\x06h");
    assert_eq!(vm.run_next(), Ok(None));
    assert_eq!(vm.head(), 4);
    assert_eq!(vm.read_instruction(), Some(Instruction::LoadInt));
}

#[test]
fn nop_only_advances() {
    let (r, stack) = run_bytes(&[0, 0, 4, 1, 0, 0, 0, 0, 0, 0, 0], &[]);
    assert_eq!(r, Ok(Halt::Finished));
    assert_eq!(stack, vec![Value::Int(1)]);
}
