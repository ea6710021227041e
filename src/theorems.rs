use vstd::prelude::*;

use crate::binop::BinOp;
use crate::bytecode::{
    decode_at, distinct_values, encodable, encode, if_code, if_else_code, inserted, is_placeholder,
    while_code,
    lemma_decode_encode, lemma_zero_target, patched, Instr, Instruction, PoolView,
};
use crate::error::VmError;
use crate::value::{arith, truthy, Eval, FloatOp, Number, Val};
use crate::bytecode::{
    instr_len, lemma_reaches_extend, lemma_reaches_over, lemma_reaches_shift, lemma_reaches_through,
    lemma_text_end_none,
    reaches, text_end, whole_instructions,
};
use vstd::bytes::{lemma_auto_spec_u64_to_from_le_bytes, spec_u64_to_le_bytes};
use crate::vm::{run_from, step, valid_target, Halt};

verus! {

/// The instruction that loads `v` directly: `LoadInt`, `LoadFloat` or `LoadStr`.
pub open spec fn literal(v: Val) -> Instr {
    match v {
        Val::Int(i) => Instr::LoadInt(i),
        Val::Float(bits) => Instr::LoadFloat(bits),
        Val::Str(s) => Instr::LoadStr(s),
    }
}

/// The bytes of one literal load per value, in order.
pub open spec fn literal_code(vals: Seq<Val>) -> Seq<u8>
    decreases vals.len(),
{
    if vals.len() == 0 {
        Seq::empty()
    } else {
        literal_code(vals.drop_last()) + encode(literal(vals.last()))
    }
}

/// One more literal load appends its bytes, as `push_int`, `push_float` and
/// `push_str` append them to a pool.
pub proof fn literal_code_push(vals: Seq<Val>, v: Val)
    ensures
        literal_code(vals.push(v)) == literal_code(vals) + encode(literal(v)),
{
    assert(vals.push(v).drop_last() =~= vals);
}

/// Every value can be written as a literal: no text holds a NUL character.
pub open spec fn loadable(vals: Seq<Val>) -> bool {
    forall|k: int| 0 <= k < vals.len() ==> encodable(#[trigger] literal(vals[k]))
}

/// A literal load pushes its value and moves past itself.
proof fn lemma_step_literal(pre: Seq<u8>, v: Val, post: Seq<u8>, c: Seq<Val>, stack: Seq<Val>)
    requires
        encodable(literal(v)),
    ensures
        step(pre + encode(literal(v)) + post, c, pre.len() as int, stack) == Ok::<
            (int, Seq<Val>, Option<FloatOp>),
            VmError,
        >(((pre.len() + encode(literal(v)).len()) as int, stack.push(v), None)),
        encode(literal(v)).len() >= 1,
{
    lemma_decode_encode(pre, literal(v), post);
    crate::bytecode::lemma_instr_len_bounds(pre + encode(literal(v)) + post, pre.len() as int);
}

/// A block of literal loads, wherever it stands, pushes its values in order, one
/// instruction per value.
pub proof fn lemma_literal_block(
    pre: Seq<u8>,
    vals: Seq<Val>,
    post: Seq<u8>,
    c: Seq<Val>,
    stack: Seq<Val>,
    fuel: nat,
)
    requires
        loadable(vals),
    ensures
        run_from(pre + literal_code(vals) + post, c, pre.len() as int, stack, fuel + vals.len())
            == run_from(
            pre + literal_code(vals) + post,
            c,
            (pre.len() + literal_code(vals).len()) as int,
            stack + vals,
            fuel,
        ),
    decreases vals.len(),
{
    if vals.len() == 0 {
        assert(literal_code(vals) =~= Seq::<u8>::empty());
        assert(stack + vals =~= stack);
    } else {
        let init = vals.drop_last();
        let v = vals.last();
        assert forall|k: int| 0 <= k < init.len() implies encodable(#[trigger] literal(init[k])) by {
            assert(init[k] == vals[k]);
        }
        assert(encodable(literal(vals[vals.len() - 1])));
        let a = literal_code(init);
        let e = encode(literal(v));
        let code = pre + literal_code(vals) + post;
        assert(literal_code(vals) == a + e);
        assert(code =~= pre + a + (e + post));
        lemma_literal_block(pre, init, e + post, c, stack, fuel + 1);
        assert(code =~= (pre + a) + e + post);
        lemma_step_literal(pre + a, v, post, c, stack + init);
        assert((stack + init).push(v) =~= stack + vals);
        assert(pre.len() + a.len() < code.len());
    }
}

/// Loading literals and nothing else leaves exactly the loaded values on the
/// stack, in the order they were emitted.
pub proof fn literals_load_in_order(vals: Seq<Val>, c: Seq<Val>)
    requires
        loadable(vals),
        vals.len() <= u64::MAX,
    ensures
        run_from(literal_code(vals), c, 0, Seq::empty(), u64::MAX as nat) == (
            Ok::<Halt, VmError>(Halt::Finished),
            literal_code(vals).len() as int,
            vals,
        ),
{
    let e = Seq::<u8>::empty();
    assert(e + literal_code(vals) + e =~= literal_code(vals));
    lemma_literal_block(e, vals, e, c, Seq::empty(), (u64::MAX - vals.len()) as nat);
    assert(Seq::<Val>::empty() + vals =~= vals);
}

/// Two literal loads followed by a binary operator.
pub open spec fn binop_code(x: Val, y: Val, op: BinOp) -> Seq<u8> {
    literal_code(seq![x, y]) + encode(Instr::BinOp(op))
}

/// What running `binop_code(x, y, op)` ends in: the operator's value alone on the
/// stack, the floating-point work handed out with an empty stack, or the
/// operator's error with both operands still on the stack.
pub open spec fn binop_outcome(x: Val, y: Val, op: BinOp) -> (Result<Halt, VmError>, int, Seq<Val>) {
    let len = binop_code(x, y, op).len() as int;
    match arith(op, x, y) {
        Err(e) => (Err(e), len - 2, seq![x, y]),
        Ok(Eval::Value(v)) => (Ok(Halt::Finished), len, seq![v]),
        Ok(Eval::Float(f)) => (Ok(Halt::Float(f)), len, Seq::empty()),
    }
}

/// Loading two literals and applying an operator yields what the operator
/// means on those two values (`arith`).
pub proof fn binop_program_runs(x: Val, y: Val, op: BinOp, c: Seq<Val>)
    requires
        encodable(literal(x)),
        encodable(literal(y)),
    ensures
        run_from(binop_code(x, y, op), c, 0, Seq::empty(), u64::MAX as nat) == binop_outcome(
            x,
            y,
            op,
        ),
{
    let vals = seq![x, y];
    let lits = literal_code(vals);
    let tail = encode(Instr::BinOp(op));
    let e = Seq::<u8>::empty();
    assert(loadable(vals)) by {
        assert forall|k: int| 0 <= k < vals.len() implies encodable(#[trigger] literal(vals[k])) by {
            if k == 0 {
                assert(vals[k] == x);
            } else {
                assert(vals[k] == y);
            }
        }
    }
    assert(e + lits + tail =~= binop_code(x, y, op));
    lemma_literal_block(e, vals, tail, c, Seq::empty(), (u64::MAX - 2) as nat);
    assert(Seq::<Val>::empty() + vals =~= vals);
    assert(vals.drop_last() =~= seq![x]);
    assert(seq![x].drop_last() =~= Seq::<Val>::empty());
    assert(literal_code(Seq::<Val>::empty()) =~= Seq::<u8>::empty());
    assert(seq![x].last() == x);
    assert(literal_code(seq![x]) =~= encode(literal(x)));
    assert(lits =~= encode(literal(x)) + encode(literal(y)));
    lemma_decode_encode(lits, Instr::BinOp(op), e);
    assert(lits + tail + e =~= binop_code(x, y, op));
    assert(vals.subrange(0, 0) =~= Seq::<Val>::empty());
    assert(vals.len() - 2 == 0);
    assert(vals.subrange(0, 0) =~= Seq::<Val>::empty());
    assert(Seq::<Val>::empty().push(Val::Int(0)).len() == 1);
    let code = binop_code(x, y, op);
    let p = lits.len() as int;
    let fuel = (u64::MAX - 2) as nat;
    assert(code.len() == p + 2);
    assert(decode_at(code, p) == Ok::<(Instr, int), VmError>((Instr::BinOp(op), p + 2)));
    assert(vals.subrange(0, vals.len() - 2) =~= Seq::<Val>::empty());
    assert(vals[vals.len() - 2] == x && vals.last() == y);
    match arith(op, x, y) {
        Err(e) => {
            assert(step(code, c, p, vals) == Err::<(int, Seq<Val>, Option<FloatOp>), VmError>(e));
            assert(run_from(code, c, p, vals, fuel) == (Err::<Halt, VmError>(e), p, vals));
        },
        Ok(Eval::Value(v)) => {
            assert(Seq::<Val>::empty().push(v) =~= seq![v]);
            assert(step(code, c, p, vals) == Ok::<(int, Seq<Val>, Option<FloatOp>), VmError>(
                (p + 2, seq![v], None),
            ));
            assert(run_from(code, c, p + 2, seq![v], (fuel - 1) as nat) == (
                Ok::<Halt, VmError>(Halt::Finished),
                p + 2,
                seq![v],
            ));
        },
        Ok(Eval::Float(f)) => {
            assert(step(code, c, p, vals) == Ok::<(int, Seq<Val>, Option<FloatOp>), VmError>(
                (p + 2, Seq::<Val>::empty(), Some(f)),
            ));
        },
    }
}

/// Integer arithmetic through the machine: `LoadInt(a); LoadInt(b); BinOp(op)`
/// leaves `[Int(a op b)]`, wrapping on overflow, for `Add`, `Sub` and `Mul`.
pub proof fn int_arithmetic(a: i64, b: i64, c: Seq<Val>)
    ensures
        run_from(binop_code(Val::Int(a), Val::Int(b), BinOp::Add), c, 0, Seq::empty(), u64::MAX as nat).2
            == seq![Val::Int(vstd::wrapping::i64_specs::wrapping_add(a, b))],
        run_from(binop_code(Val::Int(a), Val::Int(b), BinOp::Sub), c, 0, Seq::empty(), u64::MAX as nat).2
            == seq![Val::Int(vstd::wrapping::i64_specs::wrapping_sub(a, b))],
        run_from(binop_code(Val::Int(a), Val::Int(b), BinOp::Mul), c, 0, Seq::empty(), u64::MAX as nat).2
            == seq![Val::Int(vstd::wrapping::i64_specs::wrapping_mul(a, b))],
        run_from(binop_code(Val::Int(a), Val::Int(b), BinOp::Add), c, 0, Seq::empty(), u64::MAX as nat).0
            == Ok::<Halt, VmError>(Halt::Finished),
        run_from(binop_code(Val::Int(a), Val::Int(b), BinOp::Sub), c, 0, Seq::empty(), u64::MAX as nat).0
            == Ok::<Halt, VmError>(Halt::Finished),
        run_from(binop_code(Val::Int(a), Val::Int(b), BinOp::Mul), c, 0, Seq::empty(), u64::MAX as nat).0
            == Ok::<Halt, VmError>(Halt::Finished),
{
    binop_program_runs(Val::Int(a), Val::Int(b), BinOp::Add, c);
    binop_program_runs(Val::Int(a), Val::Int(b), BinOp::Sub, c);
    binop_program_runs(Val::Int(a), Val::Int(b), BinOp::Mul, c);
}

/// Mixed arithmetic: `LoadInt(a); LoadFloat(b); BinOp(Add)` hands the caller the
/// addition of the integer, widened, and the float, with nothing left on the
/// stack for the result to join.
pub proof fn mixed_addition_is_handed_out(a: i64, b: u64, c: Seq<Val>)
    ensures
        run_from(binop_code(Val::Int(a), Val::Float(b), BinOp::Add), c, 0, Seq::empty(), u64::MAX as nat)
            == (
            Ok::<Halt, VmError>(
                Halt::Float(FloatOp { op: BinOp::Add, lhs: Number::Int(a), rhs: Number::Float(b) }),
            ),
            binop_code(Val::Int(a), Val::Float(b), BinOp::Add).len() as int,
            Seq::<Val>::empty(),
        ),
{
    binop_program_runs(Val::Int(a), Val::Float(b), BinOp::Add, c);
}


/// Text concatenation through the machine: `LoadStr(s); LoadStr(t); BinOp(Add)`
/// leaves the text `s + t` alone on the stack.
pub proof fn text_concatenation(s: Seq<char>, t: Seq<char>, c: Seq<Val>)
    requires
        !s.contains('\0'),
        !t.contains('\0'),
    ensures
        run_from(binop_code(Val::Str(s), Val::Str(t), BinOp::Add), c, 0, Seq::empty(), u64::MAX as nat)
            == (
            Ok::<Halt, VmError>(Halt::Finished),
            binop_code(Val::Str(s), Val::Str(t), BinOp::Add).len() as int,
            seq![Val::Str(s + t)],
        ),
{
    binop_program_runs(Val::Str(s), Val::Str(t), BinOp::Add, c);
}

/// Text repetition through the machine: `LoadStr(s); LoadInt(n); BinOp(Mul)`
/// leaves `s` written `n` times when `n >= 0`, and fails with `NegativeRepeat`
/// otherwise.
pub proof fn text_repetition(s: Seq<char>, n: i64, c: Seq<Val>)
    requires
        !s.contains('\0'),
    ensures
        n >= 0 ==> run_from(binop_code(Val::Str(s), Val::Int(n), BinOp::Mul), c, 0, Seq::empty(), u64::MAX as nat)
            == (
            Ok::<Halt, VmError>(Halt::Finished),
            binop_code(Val::Str(s), Val::Int(n), BinOp::Mul).len() as int,
            seq![Val::Str(crate::value::repeat_chars(s, n as nat))],
        ),
        n < 0 ==> run_from(binop_code(Val::Str(s), Val::Int(n), BinOp::Mul), c, 0, Seq::empty(), u64::MAX as nat).0
            == Err::<Halt, VmError>(VmError::NegativeRepeat(n)),
{
    binop_program_runs(Val::Str(s), Val::Int(n), BinOp::Mul, c);
}






/// Decoding runs across a block of literal loads.
proof fn lemma_reaches_over_literals(pre: Seq<u8>, vals: Seq<Val>, post: Seq<u8>)
    requires
        loadable(vals),
    ensures
        reaches(
            pre + literal_code(vals) + post,
            pre.len() as int,
            (pre.len() + literal_code(vals).len()) as int,
        ),
    decreases vals.len(),
{
    let code = pre + literal_code(vals) + post;
    if vals.len() == 0 {
        assert(literal_code(vals) =~= Seq::<u8>::empty());
    } else {
        let init = vals.drop_last();
        let v = vals.last();
        assert forall|k: int| 0 <= k < init.len() implies encodable(#[trigger] literal(init[k])) by {
            assert(init[k] == vals[k]);
        }
        assert(encodable(literal(vals[vals.len() - 1])));
        let a = literal_code(init);
        let e = encode(literal(v));
        assert(code =~= pre + a + (e + post));
        lemma_reaches_over_literals(pre, init, e + post);
        assert(code =~= (pre + a) + e + post);
        lemma_reaches_over(pre + a, literal(v), post);
        lemma_reaches_through(
            code,
            pre.len() as int,
            (pre.len() + a.len()) as int,
            (pre.len() + a.len() + e.len()) as int,
        );
    }
}

/// The conditional jump of an `if` block, whatever the body: it pops the
/// condition value, and goes on into the body when that value is truthy and
/// past the body when it is falsy.
pub proof fn if_jump_enters_or_skips(
    pre: Seq<u8>,
    body: Seq<u8>,
    c: Seq<Val>,
    stack: Seq<Val>,
    v: Val,
)
    requires
        if_code(pre, body).len() <= u64::MAX,
    ensures
        step(if_code(pre, body), c, pre.len() as int, stack.push(v)) == Ok::<
            (int, Seq<Val>, Option<FloatOp>),
            VmError,
        >(
            (
                if truthy(v) {
                    pre.len() + 9int
                } else {
                    if_code(pre, body).len() as int
                },
                stack,
                None,
            ),
        ),
{
    let code = if_code(pre, body);
    let target = (pre.len() + 9 + body.len()) as u64;
    lemma_decode_encode(pre, Instr::PopJumpIfFalse(target), body);
    assert(valid_target(code, target));
    assert(stack.push(v).drop_last() =~= stack);
}

/// An `if` block around literal loads: with a truthy condition value the body's
/// values land on the stack after the popped condition; with a falsy one the
/// body is skipped and the stack is exactly as it was before the condition
/// value was pushed.
pub proof fn if_block_runs_body_only_when_truthy(
    pre: Seq<u8>,
    vals: Seq<Val>,
    c: Seq<Val>,
    stack: Seq<Val>,
    v: Val,
)
    requires
        loadable(vals),
        if_code(pre, literal_code(vals)).len() < u64::MAX,
        vals.len() < u64::MAX,
    ensures
        run_from(if_code(pre, literal_code(vals)), c, pre.len() as int, stack.push(v), u64::MAX as nat)
            == (
            Ok::<Halt, VmError>(Halt::Finished),
            if_code(pre, literal_code(vals)).len() as int,
            if truthy(v) {
                stack + vals
            } else {
                stack
            },
        ),
{
    let body = literal_code(vals);
    let code = if_code(pre, body);
    let p = pre.len() as int;
    let fuel = u64::MAX as nat;
    lemma_auto_spec_u64_to_from_le_bytes();
    if_jump_enters_or_skips(pre, body, c, stack, v);
    if truthy(v) {
        let head = pre + encode(Instr::PopJumpIfFalse((pre.len() + 9 + body.len()) as u64));
        let e = Seq::<u8>::empty();
        assert(head.len() == p + 9);
        assert(code =~= head + body + e);
        assert(run_from(code, c, p, stack.push(v), fuel) == run_from(
            code,
            c,
            p + 9,
            stack,
            (fuel - 1) as nat,
        ));
        lemma_literal_block(head, vals, e, c, stack, (fuel - 1 - vals.len()) as nat);
    } else {
        assert(run_from(code, c, p, stack.push(v), fuel) == run_from(
            code,
            c,
            code.len() as int,
            stack,
            (fuel - 1) as nat,
        ));
    }
}

/// In an `if`/`else` block after whole instructions, the second branch starts
/// on an instruction boundary.
proof fn lemma_else_start_reached(pre: Seq<u8>, then_vals: Seq<Val>, f: Seq<u8>)
    requires
        whole_instructions(pre),
        loadable(then_vals),
        if_else_code(pre, literal_code(then_vals), f).len() < u64::MAX,
    ensures
        reaches(
            if_else_code(pre, literal_code(then_vals), f),
            0,
            (pre.len() + 9 + literal_code(then_vals).len() + 9) as int,
        ),
{
    lemma_auto_spec_u64_to_from_le_bytes();
    let t = literal_code(then_vals);
    let code = if_else_code(pre, t, f);
    let p = pre.len() as int;
    let else_start = p + 9 + t.len() + 9;
    let end = else_start + f.len();
    let cond_jump = encode(Instr::PopJumpIfFalse(else_start as u64));
    let exit_jump = encode(Instr::Jump(end as u64));
    assert(cond_jump.len() == 9 && exit_jump.len() == 9);
    lemma_reaches_extend(pre, cond_jump + t + exit_jump + f, 0, p);
    assert(pre + (cond_jump + t + exit_jump + f) =~= code);
    assert(code =~= pre + cond_jump + (t + exit_jump + f));
    lemma_reaches_over(pre, Instr::PopJumpIfFalse(else_start as u64), t + exit_jump + f);
    assert(code =~= (pre + cond_jump) + t + (exit_jump + f));
    lemma_reaches_over_literals(pre + cond_jump, then_vals, exit_jump + f);
    assert(code =~= (pre + cond_jump + t) + exit_jump + f);
    lemma_reaches_over(pre + cond_jump + t, Instr::Jump(end as u64), f);
    lemma_reaches_through(code, 0, p, p + 9);
    lemma_reaches_through(code, 0, p + 9, p + 9 + t.len());
    lemma_reaches_through(code, 0, p + 9 + t.len(), else_start);
}

/// An `if`/`else` block around literal loads: exactly one branch's values land
/// on the stack, the first branch's when the condition value is truthy and the
/// second's when it is falsy. `pre`, the code before the block, is a whole
/// number of instructions.
pub proof fn if_else_runs_exactly_one_branch(
    pre: Seq<u8>,
    then_vals: Seq<Val>,
    else_vals: Seq<Val>,
    c: Seq<Val>,
    stack: Seq<Val>,
    v: Val,
)
    requires
        whole_instructions(pre),
        loadable(then_vals),
        loadable(else_vals),
        if_else_code(pre, literal_code(then_vals), literal_code(else_vals)).len() < u64::MAX,
        then_vals.len() + else_vals.len() + 2 < u64::MAX,
    ensures
        run_from(
            if_else_code(pre, literal_code(then_vals), literal_code(else_vals)),
            c,
            pre.len() as int,
            stack.push(v),
            u64::MAX as nat,
        ) == (
            Ok::<Halt, VmError>(Halt::Finished),
            if_else_code(pre, literal_code(then_vals), literal_code(else_vals)).len() as int,
            if truthy(v) {
                stack + then_vals
            } else {
                stack + else_vals
            },
        ),
{
    let t = literal_code(then_vals);
    let f = literal_code(else_vals);
    let code = if_else_code(pre, t, f);
    let p = pre.len() as int;
    let else_start = p + 9 + t.len() + 9;
    let end = else_start + f.len();
    let cond_jump = encode(Instr::PopJumpIfFalse(else_start as u64));
    let exit_jump = encode(Instr::Jump(end as u64));
    let fuel = u64::MAX as nat;
    lemma_auto_spec_u64_to_from_le_bytes();
    assert(cond_jump.len() == 9 && exit_jump.len() == 9);
    assert(code =~= pre + cond_jump + (t + exit_jump + f));
    lemma_decode_encode(pre, Instr::PopJumpIfFalse(else_start as u64), t + exit_jump + f);
    lemma_else_start_reached(pre, then_vals, f);
    assert(valid_target(code, else_start as u64));
    assert(stack.push(v).drop_last() =~= stack);
    let e = Seq::<u8>::empty();
    if truthy(v) {
        assert(step(code, c, p, stack.push(v)) == Ok::<(int, Seq<Val>, Option<FloatOp>), VmError>(
            (p + 9, stack, None),
        ));
        assert(run_from(code, c, p, stack.push(v), fuel) == run_from(
            code,
            c,
            p + 9,
            stack,
            (fuel - 1) as nat,
        ));
        assert(code =~= (pre + cond_jump) + t + (exit_jump + f));
        let rest = (fuel - 1 - then_vals.len()) as nat;
        lemma_literal_block(pre + cond_jump, then_vals, exit_jump + f, c, stack, rest);
        assert(code =~= (pre + cond_jump + t) + exit_jump + f);
        lemma_decode_encode(pre + cond_jump + t, Instr::Jump(end as u64), f);
        assert(valid_target(code, end as u64));
        assert(step(code, c, p + 9 + t.len(), stack + then_vals) == Ok::<
            (int, Seq<Val>, Option<FloatOp>),
            VmError,
        >((end, stack + then_vals, None)));
        assert(run_from(code, c, p + 9 + t.len(), stack + then_vals, rest) == run_from(
            code,
            c,
            end,
            stack + then_vals,
            (rest - 1) as nat,
        ));
    } else {
        assert(step(code, c, p, stack.push(v)) == Ok::<(int, Seq<Val>, Option<FloatOp>), VmError>(
            (else_start, stack, None),
        ));
        assert(run_from(code, c, p, stack.push(v), fuel) == run_from(
            code,
            c,
            else_start,
            stack,
            (fuel - 1) as nat,
        ));
        assert(code =~= (pre + cond_jump + t + exit_jump) + f + e);
        lemma_literal_block(
            pre + cond_jump + t + exit_jump,
            else_vals,
            e,
            c,
            stack,
            (fuel - 1 - else_vals.len()) as nat,
        );
    }
}


/// Emitting the same constant twice: the second insertion finds the entry the
/// first one made, so both get the same index, and the table grows by one entry
/// when the value was new and by none otherwise.
pub proof fn constant_inserted_once(c: Seq<Val>, v: Val, i: int, j: int)
    requires
        distinct_values(c),
        0 <= i < inserted(c, v).len(),
        inserted(c, v)[i] == v,
        0 <= j < inserted(inserted(c, v), v).len(),
        inserted(inserted(c, v), v)[j] == v,
    ensures
        inserted(inserted(c, v), v) == inserted(c, v),
        i == j,
        inserted(c, v).len() == c.len() + if c.contains(v) {
            0int
        } else {
            1int
        },
{
    let c1 = inserted(c, v);
    assert(c1.contains(v)) by {
        if !c.contains(v) {
            assert(c1[c.len() as int] == v);
        }
    }
    assert(distinct_values(c1)) by {
        if !c.contains(v) {
            assert forall|a: int, b: int| 0 <= a < b < c1.len() implies c1[a] != c1[b] by {
                if b == c.len() {
                    assert(c1[a] == c[a]);
                    if c[a] == v {
                        assert(c.contains(v));
                    }
                } else {
                    assert(c1[a] == c[a] && c1[b] == c[b]);
                }
            }
        }
    }
    if i < j {
        assert(c1[i] != c1[j]);
    } else if j < i {
        assert(c1[j] != c1[i]);
    }
}

/// A handle is spent by patching it: afterwards it is no longer pending, so a
/// second `patch_jump` of it does not meet its precondition, and its operand
/// holds a nonzero target, so it is no longer a placeholder either.
pub proof fn patched_handle_is_spent(p: PoolView, h: int)
    requires
        p.wf(),
        p.pending.contains(h),
        p.bytes.len() <= u64::MAX,
    ensures
        !p.pending.remove(h).contains(h),
        !is_placeholder(patched(p.bytes, h, p.bytes.len() as u64), h),
{
    let b = p.bytes;
    let target = b.len() as u64;
    let q = patched(b, h, target);
    lemma_auto_spec_u64_to_from_le_bytes();
    lemma_zero_target();
    assert(is_placeholder(b, h));
    if is_placeholder(q, h) {
        assert(q.subrange(h, h + 8) =~= spec_u64_to_le_bytes(target));
        assert(q.subrange(h, h + 8) =~= spec_u64_to_le_bytes(0));
        assert(target == 0);
    }
}

/// An opcode whose operand runs past the end of the program (a fixed-width
/// operand with bytes missing, or text with no terminator) fails to decode with
/// `Truncated`, and the run stops there with its state untouched, whatever came
/// before.
pub proof fn truncated_operand_fails(
    pre: Seq<u8>,
    op: Instruction,
    partial: Seq<u8>,
    c: Seq<Val>,
    stack: Seq<Val>,
    fuel: nat,
)
    requires
        match op.spec_size() {
            Some(n) => partial.len() < n,
            None => !partial.contains(0u8),
        },
        fuel > 0,
    ensures
        step(pre + seq![op.spec_opcode()] + partial, c, pre.len() as int, stack) == Err::<
            (int, Seq<Val>, Option<FloatOp>),
            VmError,
        >(VmError::Truncated),
        run_from(pre + seq![op.spec_opcode()] + partial, c, pre.len() as int, stack, fuel) == (
            Err::<Halt, VmError>(VmError::Truncated),
            pre.len() as int,
            stack,
        ),
{
    let b = pre + seq![op.spec_opcode()] + partial;
    let p = pre.len() as int;
    assert(b[p] == op.spec_opcode());
    assert(Instruction::spec_from_opcode(op.spec_opcode()) == Some(op));
    if op.spec_size() is None {
        assert forall|k: int| p + 1 <= k < b.len() implies b[k] != 0 by {
            assert(b[k] == partial[k - p - 1]);
            assert(partial.contains(partial[k - p - 1]));
        }
        lemma_text_end_none(b, p + 1);
    }
    assert(instr_len(b, p) is None);
}



/// `[n - 1, n - 2, ..., c]`.
pub open spec fn countdown(n: int, c: int) -> Seq<Val> {
    Seq::new((n - c) as nat, |i: int| Val::Int((n - 1 - i) as i64))
}

/// `LoadInt(n)`, then a while loop whose condition subtracts one from the
/// counter and duplicates it, and whose body duplicates the counter.
pub open spec fn countdown_code(n: i64) -> Seq<u8> {
    while_code(
        encode(Instr::LoadInt(n)),
        encode(Instr::LoadInt(1)) + encode(Instr::BinOp(BinOp::Sub)) + encode(Instr::Dup),
        encode(Instr::Dup),
    )
}

proof fn lemma_countdown_layout(n: i64)
    ensures
        countdown_code(n).len() == 40,
        decode_at(countdown_code(n), 0) == Ok::<(Instr, int), VmError>((Instr::LoadInt(n), 9)),
        decode_at(countdown_code(n), 9) == Ok::<(Instr, int), VmError>((Instr::LoadInt(1), 18)),
        decode_at(countdown_code(n), 18) == Ok::<(Instr, int), VmError>(
            (Instr::BinOp(BinOp::Sub), 20),
        ),
        decode_at(countdown_code(n), 20) == Ok::<(Instr, int), VmError>((Instr::Dup, 21)),
        decode_at(countdown_code(n), 21) == Ok::<(Instr, int), VmError>(
            (Instr::PopJumpIfFalse(40), 30),
        ),
        decode_at(countdown_code(n), 30) == Ok::<(Instr, int), VmError>((Instr::Dup, 31)),
        decode_at(countdown_code(n), 31) == Ok::<(Instr, int), VmError>((Instr::Jump(9), 40)),
        valid_target(countdown_code(n), 9),
        valid_target(countdown_code(n), 40),
{
    lemma_auto_spec_u64_to_from_le_bytes();
    let a = encode(Instr::LoadInt(n));
    let b = encode(Instr::LoadInt(1));
    let s = encode(Instr::BinOp(BinOp::Sub));
    let d = encode(Instr::Dup);
    let j = encode(Instr::PopJumpIfFalse(40));
    let k = encode(Instr::Jump(9));
    let code = countdown_code(n);
    assert(a.len() == 9 && b.len() == 9 && s.len() == 2 && d.len() == 1);
    assert(j.len() == 9 && k.len() == 9);
    assert(code =~= a + b + s + d + j + d + k);
    let e = Seq::<u8>::empty();
    assert(code =~= e + a + (b + s + d + j + d + k));
    lemma_decode_encode(e, Instr::LoadInt(n), b + s + d + j + d + k);
    assert(code =~= a + b + (s + d + j + d + k));
    lemma_decode_encode(a, Instr::LoadInt(1), s + d + j + d + k);
    assert(code =~= (a + b) + s + (d + j + d + k));
    lemma_decode_encode(a + b, Instr::BinOp(BinOp::Sub), d + j + d + k);
    assert(code =~= (a + b + s) + d + (j + d + k));
    lemma_decode_encode(a + b + s, Instr::Dup, j + d + k);
    assert(code =~= (a + b + s + d) + j + (d + k));
    lemma_decode_encode(a + b + s + d, Instr::PopJumpIfFalse(40), d + k);
    assert(code =~= (a + b + s + d + j) + d + k);
    lemma_decode_encode(a + b + s + d + j, Instr::Dup, k);
    assert(code =~= (a + b + s + d + j + d) + k + e);
    lemma_decode_encode(a + b + s + d + j + d, Instr::Jump(9), e);
    assert(reaches(code, 9, 9));
    assert(reaches(code, 0, 9));
}

/// One round of the countdown loop: from the loop head with counter `c >= 2`,
/// six instructions later the loop head is reached again with counter `c - 1`
/// and one more copy of it kept below.
proof fn lemma_countdown_round(n: i64, cs: Seq<Val>, c: int, fuel: nat)
    requires
        2 <= c <= n,
    ensures
        run_from(countdown_code(n), cs, 9, countdown(n as int, c).push(Val::Int(c as i64)), fuel + 6)
            == run_from(
            countdown_code(n),
            cs,
            9,
            countdown(n as int, c - 1).push(Val::Int((c - 1) as i64)),
            fuel,
        ),
{
    let code = countdown_code(n);
    lemma_countdown_layout(n);
    let base = countdown(n as int, c);
    let ci = Val::Int(c as i64);
    let cm = Val::Int((c - 1) as i64);
    let s0 = base.push(ci);
    let s1 = s0.push(Val::Int(1));
    let s2 = base.push(cm);
    let s3 = s2.push(cm);
    assert(s1.subrange(0, s1.len() - 2) =~= base);
    assert(s1[s1.len() - 2] == ci && s1.last() == Val::Int(1));
    assert(crate::value::int_arith(BinOp::Sub, c as i64, 1) == (c - 1) as i64);
    assert(step(code, cs, 9, s0) == Ok::<(int, Seq<Val>, Option<FloatOp>), VmError>((18, s1, None)));
    assert(step(code, cs, 18, s1) == Ok::<(int, Seq<Val>, Option<FloatOp>), VmError>((20, s2, None)));
    assert(step(code, cs, 20, s2) == Ok::<(int, Seq<Val>, Option<FloatOp>), VmError>((21, s3, None)));
    assert(s3.drop_last() =~= s2);
    assert(truthy(cm));
    assert(step(code, cs, 21, s3) == Ok::<(int, Seq<Val>, Option<FloatOp>), VmError>((30, s2, None)));
    assert(step(code, cs, 30, s2) == Ok::<(int, Seq<Val>, Option<FloatOp>), VmError>((31, s3, None)));
    assert(step(code, cs, 31, s3) == Ok::<(int, Seq<Val>, Option<FloatOp>), VmError>((9, s3, None)));
    assert(countdown(n as int, c - 1) =~= s2);
    assert(run_from(code, cs, 9, s0, fuel + 6) == run_from(code, cs, 18, s1, fuel + 5));
    assert(run_from(code, cs, 18, s1, fuel + 5) == run_from(code, cs, 20, s2, fuel + 4));
    assert(run_from(code, cs, 20, s2, fuel + 4) == run_from(code, cs, 21, s3, fuel + 3));
    assert(run_from(code, cs, 21, s3, fuel + 3) == run_from(code, cs, 30, s2, fuel + 2));
    assert(run_from(code, cs, 30, s2, fuel + 2) == run_from(code, cs, 31, s3, fuel + 1));
}

/// The last check of the countdown loop: with counter 1 at the loop head the
/// condition yields 0, the loop exits, and the run ends with `[n - 1, ..., 0]`.
proof fn lemma_countdown_exit(n: i64, cs: Seq<Val>, fuel: nat)
    requires
        1 <= n,
    ensures
        run_from(countdown_code(n), cs, 9, countdown(n as int, 1).push(Val::Int(1)), fuel + 4) == (
            Ok::<Halt, VmError>(Halt::Finished),
            40int,
            countdown(n as int, 0),
        ),
{
    let code = countdown_code(n);
    lemma_countdown_layout(n);
    let base = countdown(n as int, 1);
    let s0 = base.push(Val::Int(1));
    let s1 = s0.push(Val::Int(1));
    let s2 = base.push(Val::Int(0));
    let s3 = s2.push(Val::Int(0));
    assert(s1.subrange(0, s1.len() - 2) =~= base);
    assert(s1[s1.len() - 2] == Val::Int(1) && s1.last() == Val::Int(1));
    assert(crate::value::int_arith(BinOp::Sub, 1, 1) == 0);
    assert(step(code, cs, 9, s0) == Ok::<(int, Seq<Val>, Option<FloatOp>), VmError>((18, s1, None)));
    assert(step(code, cs, 18, s1) == Ok::<(int, Seq<Val>, Option<FloatOp>), VmError>((20, s2, None)));
    assert(step(code, cs, 20, s2) == Ok::<(int, Seq<Val>, Option<FloatOp>), VmError>((21, s3, None)));
    assert(s3.drop_last() =~= s2);
    assert(step(code, cs, 21, s3) == Ok::<(int, Seq<Val>, Option<FloatOp>), VmError>((40, s2, None)));
    assert(countdown(n as int, 0) =~= s2);
    assert(run_from(code, cs, 9, s0, fuel + 4) == run_from(code, cs, 18, s1, fuel + 3));
    assert(run_from(code, cs, 18, s1, fuel + 3) == run_from(code, cs, 20, s2, fuel + 2));
    assert(run_from(code, cs, 20, s2, fuel + 2) == run_from(code, cs, 21, s3, fuel + 1));
    assert(run_from(code, cs, 21, s3, fuel + 1) == run_from(code, cs, 40, s2, fuel));
}

proof fn lemma_countdown_from(n: i64, cs: Seq<Val>, c: int, fuel: nat)
    requires
        1 <= c <= n,
        fuel >= 6 * (c - 1) + 4,
    ensures
        run_from(countdown_code(n), cs, 9, countdown(n as int, c).push(Val::Int(c as i64)), fuel) == (
            Ok::<Halt, VmError>(Halt::Finished),
            40int,
            countdown(n as int, 0),
        ),
    decreases c,
{
    if c == 1 {
        lemma_countdown_exit(n, cs, (fuel - 4) as nat);
    } else {
        lemma_countdown_round(n, cs, c, (fuel - 6) as nat);
        lemma_countdown_from(n, cs, c - 1, (fuel - 6) as nat);
    }
}

/// A while loop that counts down: starting from `n >= 1`, with a condition that
/// subtracts one from the counter and duplicates it and a body that duplicates
/// the counter, the run ends with `[n - 1, n - 2, ..., 1, 0]` (for `n = 4`:
/// `[3, 2, 1, 0]`): one value kept for each of the `n - 1` rounds of the body,
/// and the final 0. The bound on `n` keeps the run within the step limit.
pub proof fn countdown_while_loop(n: i64, cs: Seq<Val>)
    requires
        1 <= n <= 0x0fff_ffff_ffff_ffff,
    ensures
        run_from(countdown_code(n), cs, 0, Seq::empty(), u64::MAX as nat) == (
            Ok::<Halt, VmError>(Halt::Finished),
            countdown_code(n).len() as int,
            countdown(n as int, 0),
        ),
{
    let code = countdown_code(n);
    lemma_countdown_layout(n);
    let start = Seq::<Val>::empty().push(Val::Int(n));
    assert(countdown(n as int, n as int).push(Val::Int(n)) =~= start);
    assert(step(code, cs, 0, Seq::empty()) == Ok::<(int, Seq<Val>, Option<FloatOp>), VmError>(
        (9, start, None),
    ));
    assert(run_from(code, cs, 0, Seq::empty(), u64::MAX as nat) == run_from(
        code,
        cs,
        9,
        start,
        (u64::MAX - 1) as nat,
    ));
    lemma_countdown_from(n, cs, n as int, (u64::MAX - 1) as nat);
}


/// In a well-formed pool every `LoadConst` that starts an instruction names an
/// entry of the pool's constant table, so running it never fails with
/// `BadConstant`.
pub proof fn built_constants_resolve(v: PoolView, t: int)
    requires
        v.wf(),
        reaches(v.bytes, 0, t),
        0 <= t < v.bytes.len(),
    ensures
        decode_at(v.bytes, t) matches Ok((Instr::LoadConst(k), _)) ==> k < v.constants.len(),
{
}


/// An `if` block, whatever its body: a truthy condition value is popped and the
/// run goes on at the start of the body; a falsy one is popped and the run ends
/// right after the body, with the stack exactly as it was before the condition
/// value was pushed.
pub proof fn if_enters_body_only_when_truthy(
    pre: Seq<u8>,
    body: Seq<u8>,
    c: Seq<Val>,
    stack: Seq<Val>,
    v: Val,
    fuel: nat,
)
    requires
        if_code(pre, body).len() <= u64::MAX,
    ensures
        truthy(v) ==> run_from(if_code(pre, body), c, pre.len() as int, stack.push(v), fuel + 1)
            == run_from(if_code(pre, body), c, pre.len() + 9int, stack, fuel),
        !truthy(v) ==> run_from(if_code(pre, body), c, pre.len() as int, stack.push(v), fuel + 1)
            == (Ok::<Halt, VmError>(Halt::Finished), if_code(pre, body).len() as int, stack),
{
    lemma_auto_spec_u64_to_from_le_bytes();
    if_jump_enters_or_skips(pre, body, c, stack, v);
    let code = if_code(pre, body);
    assert(encode(Instr::PopJumpIfFalse((pre.len() + 9 + body.len()) as u64)).len() == 9);
    if !truthy(v) {
        assert(run_from(code, c, pre.len() as int, stack.push(v), fuel + 1) == run_from(
            code,
            c,
            code.len() as int,
            stack,
            fuel,
        ));
    }
}

/// The first branch of an `if`/`else` block starts after whole instructions and
/// is itself a whole number of instructions: the second branch then starts on an
/// instruction boundary.
proof fn lemma_second_branch_reached(pre: Seq<u8>, t: Seq<u8>, f: Seq<u8>)
    requires
        whole_instructions(pre),
        whole_instructions(t),
        if_else_code(pre, t, f).len() <= u64::MAX,
    ensures
        reaches(if_else_code(pre, t, f), 0, (pre.len() + 9 + t.len() + 9) as int),
{
    lemma_auto_spec_u64_to_from_le_bytes();
    let code = if_else_code(pre, t, f);
    let p = pre.len() as int;
    let else_start = p + 9 + t.len() + 9;
    let end = else_start + f.len();
    let cond_jump = encode(Instr::PopJumpIfFalse(else_start as u64));
    let exit_jump = encode(Instr::Jump(end as u64));
    assert(cond_jump.len() == 9 && exit_jump.len() == 9);
    lemma_reaches_extend(pre, cond_jump + t + exit_jump + f, 0, p);
    assert(pre + (cond_jump + t + exit_jump + f) =~= code);
    assert(code =~= pre + cond_jump + (t + exit_jump + f));
    lemma_reaches_over(pre, Instr::PopJumpIfFalse(else_start as u64), t + exit_jump + f);
    lemma_reaches_extend(t, exit_jump + f, 0, t.len() as int);
    lemma_reaches_shift(pre + cond_jump, t + (exit_jump + f), 0, t.len() as int);
    assert((pre + cond_jump) + (t + (exit_jump + f)) =~= code);
    assert(code =~= (pre + cond_jump + t) + exit_jump + f);
    lemma_reaches_over(pre + cond_jump + t, Instr::Jump(end as u64), f);
    lemma_reaches_through(code, 0, p, p + 9);
    lemma_reaches_through(code, 0, p + 9, p + 9 + t.len());
    lemma_reaches_through(code, 0, p + 9 + t.len(), else_start);
}

/// An `if`/`else` block, whatever its branches hold: a truthy condition value
/// is popped and the run goes on at the start of the first branch; a falsy one
/// is popped and the run goes on at the start of the second; and the end of the
/// first branch jumps past the second, keeping the stack, to the end of the
/// block. So a run enters exactly one branch. `pre` and the first branch are
/// whole numbers of instructions.
pub proof fn if_else_enters_exactly_one_branch(
    pre: Seq<u8>,
    then_body: Seq<u8>,
    else_body: Seq<u8>,
    c: Seq<Val>,
    stack: Seq<Val>,
    v: Val,
    after_then: Seq<Val>,
    fuel: nat,
)
    requires
        whole_instructions(pre),
        whole_instructions(then_body),
        if_else_code(pre, then_body, else_body).len() <= u64::MAX,
    ensures
        truthy(v) ==> run_from(
            if_else_code(pre, then_body, else_body),
            c,
            pre.len() as int,
            stack.push(v),
            fuel + 1,
        ) == run_from(if_else_code(pre, then_body, else_body), c, pre.len() + 9int, stack, fuel),
        !truthy(v) ==> run_from(
            if_else_code(pre, then_body, else_body),
            c,
            pre.len() as int,
            stack.push(v),
            fuel + 1,
        ) == run_from(
            if_else_code(pre, then_body, else_body),
            c,
            (pre.len() + 9 + then_body.len() + 9) as int,
            stack,
            fuel,
        ),
        run_from(
            if_else_code(pre, then_body, else_body),
            c,
            (pre.len() + 9 + then_body.len()) as int,
            after_then,
            fuel + 1,
        ) == (
            Ok::<Halt, VmError>(Halt::Finished),
            if_else_code(pre, then_body, else_body).len() as int,
            after_then,
        ),
{
    lemma_auto_spec_u64_to_from_le_bytes();
    let t = then_body;
    let f = else_body;
    let code = if_else_code(pre, t, f);
    let p = pre.len() as int;
    let else_start = p + 9 + t.len() + 9;
    let end = else_start + f.len();
    let cond_jump = encode(Instr::PopJumpIfFalse(else_start as u64));
    let exit_jump = encode(Instr::Jump(end as u64));
    assert(cond_jump.len() == 9 && exit_jump.len() == 9);
    assert(code =~= pre + cond_jump + (t + exit_jump + f));
    lemma_decode_encode(pre, Instr::PopJumpIfFalse(else_start as u64), t + exit_jump + f);
    lemma_second_branch_reached(pre, t, f);
    assert(valid_target(code, else_start as u64));
    assert(stack.push(v).drop_last() =~= stack);
    assert(code =~= (pre + cond_jump + t) + exit_jump + f);
    lemma_decode_encode(pre + cond_jump + t, Instr::Jump(end as u64), f);
    assert(valid_target(code, end as u64));
    assert(step(code, c, p + 9 + t.len(), after_then) == Ok::<
        (int, Seq<Val>, Option<FloatOp>),
        VmError,
    >((end, after_then, None)));
    assert(p + 9 + t.len() < code.len());
    assert(run_from(code, c, p + 9 + t.len(), after_then, fuel + 1) == run_from(
        code,
        c,
        end,
        after_then,
        fuel,
    ));
}

} // verus!
