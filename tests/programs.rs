use petty_static::binop::BinOp;
use petty_static::bytecode::Pool;
use petty_static::value::{FloatOp, Number, Text, Value};
use petty_static::vm::{Halt, Vm};

fn number(n: Number) -> f64 {
    match n {
        Number::Int(i) => i as f64,
        Number::Float(bits) => f64::from_bits(bits),
    }
}

fn float_result(op: FloatOp) -> u64 {
    let (a, b) = (number(op.lhs), number(op.rhs));
    let r = match op.op {
        BinOp::Add => a + b,
        BinOp::Sub => a - b,
        BinOp::Mul => a * b,
        other => panic!("no float arithmetic for {other:?}"),
    };
    r.to_bits()
}

fn create_and_run<'a>(pool: &'a Pool<'a>) -> Vec<Value<'a>> {
    let mut vm = Vm::new(pool.as_bytes(), pool.constants());
    loop {
        match vm.run() {
            Ok(Halt::Finished) => return vm.into_stack(),
            Ok(Halt::Float(op)) => vm.resume(float_result(op)),
            Err(e) => panic!("run failed: {e:?}"),
        }
    }
}

fn float(x: f64) -> Value<'static> {
    Value::Float(x.to_bits())
}

fn text(s: &str) -> Value<'_> {
    Value::Str(Text::Borrowed(s))
}

fn owned(s: String) -> Value<'static> {
    Value::Str(Text::Owned(s))
}

fn owned_copy(v: &Value) -> Value<'static> {
    match v {
        Value::Int(i) => Value::Int(*i),
        Value::Float(b) => Value::Float(*b),
        Value::Str(t) => owned(t.as_str().to_string()),
    }
}

fn run_binop_program(build: impl Fn(&mut Pool)) -> Vec<Value<'static>> {
    let mut pool = Pool::new();
    build(&mut pool);
    let stack = create_and_run(&pool);
    stack.iter().map(owned_copy).collect()
}

#[test]
fn tests_int() {
    let ints = [10, 15, 20, 25];
    let mut pool = Pool::default();
    for int in ints {
        pool.push_int(int);
    }
    let stack = create_and_run(&pool);
    let expected: Vec<Value> = ints.into_iter().map(Value::Int).collect();
    assert_eq!(stack, expected);

    let add = run_binop_program(|p| {
        p.push_int(1);
        p.push_int(2);
        p.push_binop(BinOp::Add);
    });
    assert_eq!(add, vec![Value::Int(3)]);

    let sub = run_binop_program(|p| {
        p.push_int(1);
        p.push_int(2);
        p.push_binop(BinOp::Sub);
    });
    assert_eq!(sub, vec![Value::Int(-1)]);

    let mul = run_binop_program(|p| {
        p.push_int(1);
        p.push_int(2);
        p.push_binop(BinOp::Mul);
    });
    assert_eq!(mul, vec![Value::Int(2)]);
}

#[test]
fn tests_float() {
    let floats = [1.1, 0.2, 12.2, f64::MAX, f64::INFINITY, f64::NEG_INFINITY];
    let mut pool = Pool::default();
    for x in floats {
        pool.push_float(x.to_bits());
    }
    let stack = create_and_run(&pool);
    let expected: Vec<Value> = floats.into_iter().map(float).collect();
    assert_eq!(stack, expected);

    for (op, expected) in [
        (BinOp::Add, 1.23 + 4.56),
        (BinOp::Sub, 1.23 - 4.56),
        (BinOp::Mul, 1.23 * 4.56),
    ] {
        let stack = run_binop_program(|p| {
            p.push_float(1.23f64.to_bits());
            p.push_float(4.56f64.to_bits());
            p.push_binop(op);
        });
        assert_eq!(stack, vec![float(expected)]);
    }
}

#[test]
fn tests_str() {
    let repeated = "repeated ".repeat(100);
    let strings = ["", "Hello, World!", repeated.as_str()];
    let mut pool = Pool::default();
    for s in strings {
        pool.push_str(s);
    }
    let stack = create_and_run(&pool);
    let expected: Vec<Value> = strings.into_iter().map(text).collect();
    assert_eq!(stack, expected);

    let mut pool = Pool::default();
    pool.push_str("Hello, ");
    pool.push_str("World!");
    pool.push_binop(BinOp::Add);
    let stack = create_and_run(&pool);
    assert_eq!(stack, vec![owned("Hello, World!".to_string())]);
    assert!(matches!(&stack[0], Value::Str(t) if t.is_owned()));
}

#[test]
fn tests_int_float() {
    for (op, first, second) in [
        (BinOp::Add, 1.0 + 0.5, 12.5 + 2.0),
        (BinOp::Sub, 1.0 - 0.5, 12.5 - 2.0),
        (BinOp::Mul, 1.0 * 0.5, 12.5 * 2.0),
    ] {
        let stack = run_binop_program(|p| {
            p.push_int(1);
            p.push_float(0.5f64.to_bits());
            p.push_binop(op);
            p.push_float(12.5f64.to_bits());
            p.push_int(2);
            p.push_binop(op);
        });
        assert_eq!(stack, vec![float(first), float(second)]);
    }
}

#[test]
fn tests_str_int() {
    let mut pool = Pool::default();
    pool.push_str("repeat ");
    pool.push_int(5);
    pool.push_binop(BinOp::Mul);
    pool.push_int(3);
    pool.push_str("hello ");
    pool.push_binop(BinOp::Mul);
    let stack = create_and_run(&pool);
    assert_eq!(
        stack,
        vec![owned("repeat ".repeat(5)), owned("hello ".repeat(3))]
    );
}

#[test]
fn tests_patch_jump() {
    let mut pool = Pool::default();
    pool.push_int(1);
    let jump = pool.emit_jump();
    pool.push_int(2);
    pool.push_int(3);
    pool.patch_jump(jump);
    pool.push_int(4);
    let stack = create_and_run(&pool);
    assert_eq!(stack, vec![Value::Int(1), Value::Int(4)]);
}

#[test]
fn tests_jump_flag() {
    let mut pool = Pool::default();
    pool.push_int(1);
    let flag = pool.emit_flag();
    pool.push_int(1);
    pool.push_binop(BinOp::Sub);
    pool.push_dup();
    pool.pop_jump_flag_if_false(flag);
    let stack = create_and_run(&pool);
    assert_eq!(stack, vec![Value::Int(-1)]);
}

#[test]
fn tests_if_true() {
    let mut pool = Pool::default();
    pool.push_int(1);
    pool.push_if(|mut if_body| {
        if_body.push_str("Hello");
        if_body
    });
    pool.push_str(", World!");
    let stack = create_and_run(&pool);
    assert_eq!(stack, vec![text("Hello"), text(", World!")]);

    let mut pool = Pool::default();
    pool.push_const(Value::Int(1));
    pool.push_if(|mut if_body| {
        if_body.push_const(text("Hello"));
        if_body
    });
    pool.push_const(text(", World!"));
    let stack = create_and_run(&pool);
    assert_eq!(stack, vec![text("Hello"), text(", World!")]);
}

#[test]
fn tests_if_false() {
    let mut pool = Pool::default();
    pool.push_int(0);
    pool.push_if(|mut if_body| {
        if_body.push_str("Hello");
        if_body
    });
    pool.push_str(", World!");
    let stack = create_and_run(&pool);
    assert_eq!(stack, vec![text(", World!")]);

    let mut pool = Pool::default();
    pool.push_const(Value::Int(0));
    pool.push_if(|mut if_body| {
        if_body.push_const(text("Hello"));
        if_body
    });
    pool.push_const(text(", World!"));
    let stack = create_and_run(&pool);
    assert_eq!(stack, vec![text(", World!")]);
}

fn if_else_program(condition: i64, with_constants: bool) -> Vec<Value<'static>> {
    let mut pool = Pool::default();
    if with_constants {
        pool.push_const(Value::Int(condition));
    } else {
        pool.push_int(condition);
    }
    pool.push_if_or_else(
        |mut if_body| {
            if with_constants {
                if_body.push_const(text("if"));
            } else {
                if_body.push_str("if");
            }
            if_body
        },
        |mut else_body| {
            if with_constants {
                else_body.push_const(text("else"));
            } else {
                else_body.push_str("else");
            }
            else_body
        },
    );
    let stack = create_and_run(&pool);
    stack.iter().map(|v| owned_copy(v)).collect()
}

#[test]
fn tests_if_else_true() {
    assert_eq!(if_else_program(1, false), vec![text("if")]);
    assert_eq!(if_else_program(1, true), vec![text("if")]);
}

#[test]
fn tests_if_else_false() {
    assert_eq!(if_else_program(0, false), vec![text("else")]);
    assert_eq!(if_else_program(0, true), vec![text("else")]);
}

#[test]
fn tests_test_while_loop() {
    let mut pool = Pool::default();
    pool.push_int(10);
    pool.push_while_loop(
        |mut condition| {
            condition.push_int(1);
            condition.push_binop(BinOp::Sub);
            condition.push_dup();
            condition
        },
        |loop_body| loop_body,
    );
    let stack = create_and_run(&pool);
    assert_eq!(stack, vec![Value::Int(0)]);

    let mut pool = Pool::default();
    pool.push_const(Value::Int(4));
    pool.push_while_loop(
        |mut condition| {
            condition.push_const(Value::Int(1));
            condition.push_binop(BinOp::Sub);
            condition.push_dup();
            condition
        },
        |mut body| {
            body.push_dup();
            body
        },
    );
    let stack = create_and_run(&pool);
    assert_eq!(
        stack,
        vec![Value::Int(3), Value::Int(2), Value::Int(1), Value::Int(0)]
    );
}

#[test]
fn test_loop() {
    let mut pool = Pool::default();
    pool.push_const(Value::Int(4));

    let mut jump = 0;
    pool.push_loop(|mut body| {
        body.push_const(Value::Int(1));
        body.push_binop(BinOp::Sub);
        body.push_dup();
        jump = body.emit_pop_jump_if_false();
        body.push_dup();
        body
    });
    pool.patch_jump(jump);

    let stack = create_and_run(&pool);
    assert_eq!(
        stack,
        vec![Value::Int(3), Value::Int(2), Value::Int(1), Value::Int(0)]
    );
}

#[test]
fn test_consts() {
    let mut pool = Pool::default();
    pool.push_const(Value::Int(1));
    pool.push_const(float(1.5));
    pool.push_const(text("Hello, World!"));

    let stack = create_and_run(&pool);
    assert_eq!(
        stack,
        vec![Value::Int(1), float(1.5), text("Hello, World!")]
    );
}

#[test]
fn test_dup() {
    let mut pool = Pool::default();
    pool.push_const(Value::Int(1));
    pool.push_const(float(2.0));
    pool.push_dup();

    let stack = create_and_run(&pool);
    assert_eq!(stack, vec![Value::Int(1), float(2.0), float(2.0)]);
}

#[test]
fn test_binops() {
    let mut pool = Pool::default();
    pool.push_const(Value::Int(2));
    pool.push_const(Value::Int(3));
    pool.push_binop(BinOp::Add);
    pool.push_const(Value::Int(2));
    pool.push_binop(BinOp::Sub);
    pool.push_const(text("Hello, "));
    pool.push_binop(BinOp::Mul);

    let stack = create_and_run(&pool);
    assert_eq!(stack, vec![text("Hello, Hello, Hello, ")]);
}

#[test]
fn test_jump() {
    let mut pool = Pool::default();
    pool.push_const(Value::Int(1));
    let flag = pool.emit_jump();
    pool.push_const(Value::Int(2));
    pool.push_const(Value::Int(3));
    pool.patch_jump(flag);
    pool.push_const(Value::Int(4));

    let stack = create_and_run(&pool);
    assert_eq!(stack, vec![Value::Int(1), Value::Int(4)]);
}

#[test]
fn test_pop_jump_if_false() {
    let mut pool = Pool::default();
    pool.push_const(Value::Int(1));
    pool.push_const(Value::Int(0));
    let start = pool.len();
    pool.pop_jump_flag_if_false(start);

    let stack = create_and_run(&pool);
    assert_eq!(stack, vec![]);
}
