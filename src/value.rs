use vstd::prelude::*;
use vstd::string::*;
use vstd::utf8::*;

use crate::binop::BinOp;
use crate::error::VmError;

verus! {

broadcast use encode_utf8_decode_utf8;

/// Text held by a value: either a view into bytes that outlive the machine (the
/// program or its constant table), or a copy that an operator had to allocate.
#[derive(Debug, Clone)]
pub enum Text<'a> {
    Borrowed(&'a str),
    Owned(String),
}

impl<'a> View for Text<'a> {
    type V = Seq<char>;

    open spec fn view(&self) -> Seq<char> {
        match self {
            Text::Borrowed(s) => s@,
            Text::Owned(s) => s@,
        }
    }
}

/// Two strings with the same UTF-8 bytes have the same characters.
proof fn lemma_utf8_injective(a: Seq<char>, b: Seq<char>)
    requires
        encode_utf8(a) == encode_utf8(b),
    ensures
        a == b,
{
    assert(decode_utf8(encode_utf8(a)) == a);
    assert(decode_utf8(encode_utf8(b)) == b);
}

/// Character-wise equality of two strings, decided on their bytes.
fn same_text(a: &str, b: &str) -> (r: bool)
    ensures
        r == (a@ == b@),
{
    let x = a.as_bytes();
    let y = b.as_bytes();
    if x.len() != y.len() {
        return false;
    }
    let mut i: usize = 0;
    while i < x.len()
        invariant
            x@ == encode_utf8(a@),
            y@ == encode_utf8(b@),
            x@.len() == y@.len(),
            i <= x@.len(),
            x@.subrange(0, i as int) == y@.subrange(0, i as int),
        decreases x@.len() - i,
    {
        if x[i] != y[i] {
            return false;
        }
        assert(x@.subrange(0, i + 1) == x@.subrange(0, i as int).push(x@[i as int]));
        assert(y@.subrange(0, i + 1) == y@.subrange(0, i as int).push(y@[i as int]));
        i = i + 1;
    }
    assert(x@ == x@.subrange(0, x@.len() as int));
    assert(y@ == y@.subrange(0, y@.len() as int));
    proof {
        lemma_utf8_injective(a@, b@);
    }
    true
}

impl<'a> Text<'a> {
    pub fn as_str(&self) -> (r: &str)
        ensures
            r@ == self@,
    {
        match self {
            Text::Borrowed(s) => *s,
            Text::Owned(s) => s.as_str(),
        }
    }

    pub fn is_owned(&self) -> (r: bool)
        ensures
            r == (self is Owned),
    {
        match self {
            Text::Borrowed(_) => false,
            Text::Owned(_) => true,
        }
    }
}

impl<'a> PartialEq for Text<'a> {
    fn eq(&self, other: &Text<'a>) -> (r: bool) {
        same_text(self.as_str(), other.as_str())
    }
}

impl<'a> vstd::std_specs::cmp::PartialEqSpecImpl for Text<'a> {
    open spec fn obeys_eq_spec() -> bool {
        true
    }

    open spec fn eq_spec(&self, other: &Text<'a>) -> bool {
        self@ == other@
    }
}

/// A runtime value. A float is held as its IEEE-754 bit pattern: the machine
/// moves it, tests it for zero and hands it to the caller for arithmetic, and
/// never computes with it itself.
#[derive(Debug, Clone)]
pub enum Value<'a> {
    Int(i64),
    Float(u64),
    Str(Text<'a>),
}

/// What a value is, with text taken as its characters whatever owns them.
pub enum Val {
    Int(i64),
    Float(u64),
    Str(Seq<char>),
}

impl<'a> View for Value<'a> {
    type V = Val;

    open spec fn view(&self) -> Val {
        match self {
            Value::Int(i) => Val::Int(*i),
            Value::Float(b) => Val::Float(*b),
            Value::Str(t) => Val::Str(t@),
        }
    }
}

impl<'a> PartialEq for Value<'a> {
    fn eq(&self, other: &Value<'a>) -> (r: bool) {
        match (self, other) {
            (Value::Int(a), Value::Int(b)) => *a == *b,
            (Value::Float(a), Value::Float(b)) => *a == *b,
            (Value::Str(a), Value::Str(b)) => same_text(a.as_str(), b.as_str()),
            _ => false,
        }
    }
}

impl<'a> vstd::std_specs::cmp::PartialEqSpecImpl for Value<'a> {
    open spec fn obeys_eq_spec() -> bool {
        true
    }

    open spec fn eq_spec(&self, other: &Value<'a>) -> bool {
        self@ == other@
    }
}

/// The bit pattern of a float equal to zero: `+0.0` or `-0.0`.
pub open spec fn float_bits_zero(bits: u64) -> bool {
    bits == 0 || bits == 0x8000_0000_0000_0000
}

/// Truthiness as conditional jumps read it. Numbers are true when nonzero (a NaN
/// is nonzero). Text is true exactly when it is empty: the opposite of the
/// numeric rule, kept as the instruction set defines it.
pub open spec fn truthy(v: Val) -> bool {
    match v {
        Val::Int(i) => i != 0,
        Val::Float(bits) => !float_bits_zero(bits),
        Val::Str(s) => s.len() == 0,
    }
}

/// `s` written `n` times in a row.
pub open spec fn repeat_chars(s: Seq<char>, n: nat) -> Seq<char>
    decreases n,
{
    if n == 0 {
        Seq::empty()
    } else {
        repeat_chars(s, (n - 1) as nat) + s
    }
}

/// A numeric operand handed out for floating-point arithmetic.
#[derive(Debug, Clone, Copy, PartialEq, Eq, Structural)]
pub enum Number {
    Int(i64),
    Float(u64),
}

/// Floating-point arithmetic that the machine leaves to its caller: `op`
/// applied to `lhs` and `rhs`, an integer operand widened to a float.
#[derive(Debug, Clone, Copy, PartialEq, Eq, Structural)]
pub struct FloatOp {
    pub op: BinOp,
    pub lhs: Number,
    pub rhs: Number,
}

/// The result of a binary operator: a value, or floating-point work for the caller.
#[derive(Debug, Clone)]
pub enum Evaluated<'a> {
    Value(Value<'a>),
    Float(FloatOp),
}

/// What an operator yields, in terms of `Val`.
pub enum Eval {
    Value(Val),
    Float(FloatOp),
}

impl<'a> View for Evaluated<'a> {
    type V = Eval;

    open spec fn view(&self) -> Eval {
        match self {
            Evaluated::Value(v) => Eval::Value(v@),
            Evaluated::Float(f) => Eval::Float(*f),
        }
    }
}

/// Integer arithmetic, wrapping on overflow.
pub open spec fn int_arith(op: BinOp, a: i64, b: i64) -> i64 {
    match op {
        BinOp::Add => vstd::wrapping::i64_specs::wrapping_add(a, b),
        BinOp::Sub => vstd::wrapping::i64_specs::wrapping_sub(a, b),
        _ => vstd::wrapping::i64_specs::wrapping_mul(a, b),
    }
}

/// Text repeated `n` times; a negative count fails.
pub open spec fn repeat_or_fail(s: Seq<char>, n: i64) -> Result<Eval, VmError> {
    if n < 0 {
        Err(VmError::NegativeRepeat(n))
    } else {
        Ok(Eval::Value(Val::Str(repeat_chars(s, n as nat))))
    }
}

/// The meaning of `lhs op rhs`. `Add`, `Sub` and `Mul` are defined: on two integers
/// with wrapping; on two numbers of which one is a float as floating-point work
/// for the caller; `Add` on two texts concatenates; `Mul` on a text and an integer,
/// in either order, repeats the text. Every other operator, and every other pair
/// of operands, fails.
pub open spec fn arith(op: BinOp, lhs: Val, rhs: Val) -> Result<Eval, VmError> {
    if !(op == BinOp::Add || op == BinOp::Sub || op == BinOp::Mul) {
        Err(VmError::UnsupportedOperator(op))
    } else {
        match (lhs, rhs) {
            (Val::Int(a), Val::Int(b)) => Ok(Eval::Value(Val::Int(int_arith(op, a, b)))),
            (Val::Int(a), Val::Float(b)) => Ok(
                Eval::Float(FloatOp { op, lhs: Number::Int(a), rhs: Number::Float(b) }),
            ),
            (Val::Float(a), Val::Int(b)) => Ok(
                Eval::Float(FloatOp { op, lhs: Number::Float(a), rhs: Number::Int(b) }),
            ),
            (Val::Float(a), Val::Float(b)) => Ok(
                Eval::Float(FloatOp { op, lhs: Number::Float(a), rhs: Number::Float(b) }),
            ),
            (Val::Str(a), Val::Str(b)) => if op == BinOp::Add {
                Ok(Eval::Value(Val::Str(a + b)))
            } else {
                Err(VmError::UnsupportedOperands(op))
            },
            (Val::Str(s), Val::Int(n)) => if op == BinOp::Mul {
                repeat_or_fail(s, n)
            } else {
                Err(VmError::UnsupportedOperands(op))
            },
            (Val::Int(n), Val::Str(s)) => if op == BinOp::Mul {
                repeat_or_fail(s, n)
            } else {
                Err(VmError::UnsupportedOperands(op))
            },
            _ => Err(VmError::UnsupportedOperands(op)),
        }
    }
}

/// `arith` read through the views of an executable result.
pub open spec fn evaluated_matches<'a>(r: Result<Evaluated<'a>, VmError>, m: Result<Eval, VmError>) -> bool {
    match r {
        Ok(e) => m == Ok::<Eval, VmError>(e@),
        Err(e) => m == Err::<Eval, VmError>(e),
    }
}

fn repeat_text(s: &str, n: i64) -> (r: String)
    requires
        n >= 0,
    ensures
        r@ == repeat_chars(s@, n as nat),
{
    let mut out = String::new();
    let mut k: i64 = 0;
    while k < n
        invariant
            0 <= k <= n,
            out@ == repeat_chars(s@, k as nat),
        decreases n - k,
    {
        out.append(s);
        k = k + 1;
    }
    out
}

impl<'a> Value<'a> {
    /// A copy of this value; borrowed text stays borrowed.
    pub fn duplicate(&self) -> (r: Value<'a>)
        ensures
            r@ == self@,
    {
        match self {
            Value::Int(i) => Value::Int(*i),
            Value::Float(b) => Value::Float(*b),
            Value::Str(Text::Borrowed(s)) => Value::Str(Text::Borrowed(*s)),
            Value::Str(Text::Owned(s)) => Value::Str(Text::Owned(s.clone())),
        }
    }

    pub fn is_truthy(&self) -> (r: bool)
        ensures
            r == truthy(self@),
    {
        match self {
            Value::Int(i) => *i != 0,
            Value::Float(bits) => !(*bits == 0 || *bits == 0x8000_0000_0000_0000),
            Value::Str(t) => t.as_str().is_empty(),
        }
    }

    /// Applies `op` to `lhs` and `rhs` (`lhs` was pushed first). New text is owned.
    pub fn run_binop(lhs: &Value<'a>, rhs: &Value<'a>, op: BinOp) -> (r: Result<
        Evaluated<'a>,
        VmError,
    >)
        ensures
            evaluated_matches(r, arith(op, lhs@, rhs@)),
            r matches Ok(Evaluated::Value(Value::Str(t))) ==> t is Owned,
    {
        if !(op == BinOp::Add || op == BinOp::Sub || op == BinOp::Mul) {
            return Err(VmError::UnsupportedOperator(op));
        }
        match (lhs, rhs) {
            (Value::Int(a), Value::Int(b)) => {
                let v = match op {
                    BinOp::Add => a.wrapping_add(*b),
                    BinOp::Sub => a.wrapping_sub(*b),
                    _ => a.wrapping_mul(*b),
                };
                Ok(Evaluated::Value(Value::Int(v)))
            },
            (Value::Int(a), Value::Float(b)) => Ok(
                Evaluated::Float(FloatOp { op, lhs: Number::Int(*a), rhs: Number::Float(*b) }),
            ),
            (Value::Float(a), Value::Int(b)) => Ok(
                Evaluated::Float(FloatOp { op, lhs: Number::Float(*a), rhs: Number::Int(*b) }),
            ),
            (Value::Float(a), Value::Float(b)) => Ok(
                Evaluated::Float(FloatOp { op, lhs: Number::Float(*a), rhs: Number::Float(*b) }),
            ),
            (Value::Str(a), Value::Str(b)) => {
                if op == BinOp::Add {
                    let mut joined = a.as_str().to_owned();
                    joined.append(b.as_str());
                    Ok(Evaluated::Value(Value::Str(Text::Owned(joined))))
                } else {
                    Err(VmError::UnsupportedOperands(op))
                }
            },
            (Value::Str(s), Value::Int(n)) => {
                if op != BinOp::Mul {
                    Err(VmError::UnsupportedOperands(op))
                } else if *n < 0 {
                    Err(VmError::NegativeRepeat(*n))
                } else {
                    Ok(Evaluated::Value(Value::Str(Text::Owned(repeat_text(s.as_str(), *n)))))
                }
            },
            (Value::Int(n), Value::Str(s)) => {
                if op != BinOp::Mul {
                    Err(VmError::UnsupportedOperands(op))
                } else if *n < 0 {
                    Err(VmError::NegativeRepeat(*n))
                } else {
                    Ok(Evaluated::Value(Value::Str(Text::Owned(repeat_text(s.as_str(), *n)))))
                }
            },
            _ => Err(VmError::UnsupportedOperands(op)),
        }
    }
}

} // verus!
