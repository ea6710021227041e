use vstd::prelude::*;

use crate::bytecode::{
    decode, decode_at, instr_len, lemma_instr_len_bounds, lemma_reaches_through, read, reaches, Decoded,
    Instr, Instruction,
};
use crate::error::VmError;
use crate::value::{arith, truthy, Eval, Evaluated, FloatOp, Text, Val, Value};

verus! {


/// A jump may land on the start of an instruction or on the end of the program.
pub open spec fn valid_target(b: Seq<u8>, t: u64) -> bool {
    t <= b.len() && (t == b.len() || reaches(b, 0, t as int))
}

/// One instruction executed at `pc`: the next offset, the next stack, and the
/// floating-point work the caller has to do before going on, if any; or the
/// error. The state is untouched on an error.
pub open spec fn step(b: Seq<u8>, c: Seq<Val>, pc: int, stack: Seq<Val>) -> Result<
    (int, Seq<Val>, Option<FloatOp>),
    VmError,
> {
    match decode_at(b, pc) {
        Err(e) => Err(e),
        Ok((i, next)) => match i {
            Instr::Nop => Ok((next, stack, None)),
            Instr::Dup => if stack.len() == 0 {
                Err(VmError::StackUnderflow)
            } else {
                Ok((next, stack.push(stack.last()), None))
            },
            Instr::BinOp(op) => if stack.len() < 2 {
                Err(VmError::StackUnderflow)
            } else {
                let rest = stack.subrange(0, stack.len() - 2);
                match arith(op, stack[stack.len() - 2], stack.last()) {
                    Err(e) => Err(e),
                    Ok(Eval::Value(v)) => Ok((next, rest.push(v), None)),
                    Ok(Eval::Float(f)) => Ok((next, rest, Some(f))),
                }
            },
            Instr::LoadConst(k) => if k < c.len() {
                Ok((next, stack.push(c[k as int]), None))
            } else {
                Err(VmError::BadConstant(k))
            },
            Instr::LoadInt(v) => Ok((next, stack.push(Val::Int(v)), None)),
            Instr::LoadFloat(bits) => Ok((next, stack.push(Val::Float(bits)), None)),
            Instr::LoadStr(s) => Ok((next, stack.push(Val::Str(s)), None)),
            Instr::Jump(t) => if valid_target(b, t) {
                Ok((t as int, stack, None))
            } else {
                Err(VmError::BadJumpTarget(t))
            },
            Instr::PopJumpIfFalse(t) => if !valid_target(b, t) {
                Err(VmError::BadJumpTarget(t))
            } else if stack.len() == 0 {
                Err(VmError::StackUnderflow)
            } else if truthy(stack.last()) {
                Ok((next, stack.drop_last(), None))
            } else {
                Ok((t as int, stack.drop_last(), None))
            },
        },
    }
}

/// What one step leaves behind: its result, the offset and the stack. An error
/// leaves `pc` and `stack` as they were.
pub open spec fn after_step(
    s: Result<(int, Seq<Val>, Option<FloatOp>), VmError>,
    pc: int,
    stack: Seq<Val>,
) -> (Result<Option<FloatOp>, VmError>, int, Seq<Val>) {
    match s {
        Err(e) => (Err(e), pc, stack),
        Ok((next, st, f)) => (Ok(f), next, st),
    }
}

/// Why a run handed control back without an error.
#[derive(Debug, Clone, Copy, PartialEq, Eq, Structural)]
pub enum Halt {
    /// Execution fell off the end of the program.
    Finished,
    /// Execution waits for the result of this floating-point operation; its
    /// operands are already popped.
    Float(FloatOp),
}

/// Runs from `pc` for at most `fuel` instructions: how the run ends, and the
/// offset and stack at that point.
pub open spec fn run_from(b: Seq<u8>, c: Seq<Val>, pc: int, stack: Seq<Val>, fuel: nat) -> (
    Result<Halt, VmError>,
    int,
    Seq<Val>,
)
    decreases fuel,
{
    if pc >= b.len() {
        (Ok(Halt::Finished), pc, stack)
    } else if fuel == 0 {
        (Err(VmError::StepLimit), pc, stack)
    } else {
        match step(b, c, pc, stack) {
            Err(e) => (Err(e), pc, stack),
            Ok((next, s, Some(f))) => (Ok(Halt::Float(f)), next, s),
            Ok((next, s, None)) => run_from(b, c, next, s, (fuel - 1) as nat),
        }
    }
}



/// Length of the instruction at `pos`, when its opcode and operand are in place.
fn instruction_len(b: &[u8], pos: usize) -> (r: Option<usize>)
    requires
        pos < b@.len(),
    ensures
        r matches Some(n) ==> instr_len(b@, pos as int) == Some(n as int),
        r is None ==> instr_len(b@, pos as int) is None,
{
    let op = match Instruction::from_opcode(b[pos]) {
        None => return None,
        Some(op) => op,
    };
    match op.size() {
        None => {
            let e = crate::bytecode::find_text_end(b, pos + 1);
            proof {
                crate::bytecode::lemma_text_end_bounds(b@, pos + 1);
            }
            if e < b.len() {
                Some(e + 1 - pos)
            } else {
                None
            }
        },
        Some(n) => {
            if n as usize <= b.len() - pos - 1 {
                Some(1 + n as usize)
            } else {
                None
            }
        },
    }
}

/// The interpreter: a finished program and its constants, an instruction
/// pointer, and the operand stack.
pub struct Vm<'a> {
    bytes: &'a [u8],
    constants: &'a [Value<'a>],
    starts: Vec<bool>,
    head: usize,
    stack: Vec<Value<'a>>,
}

impl<'a> Vm<'a> {
    pub closed spec fn code(&self) -> Seq<u8> {
        self.bytes@
    }

    pub closed spec fn consts(&self) -> Seq<Val> {
        self.constants@.map_values(|v: Value<'a>| v@)
    }

    /// The table of instruction starts matches the program.
    pub closed spec fn wf(&self) -> bool {
        &&& self.starts@.len() == self.bytes@.len()
        &&& forall|t: int|
            0 <= t < self.bytes@.len() ==> #[trigger] self.starts@[t] == reaches(self.bytes@, 0, t)
    }

    pub closed spec fn stack_view(&self) -> Seq<Val> {
        self.stack@.map_values(|v: Value<'a>| v@)
    }

    /// The values on the stack, bottom first.
    pub closed spec fn stack_values(&self) -> Seq<Value<'a>> {
        self.stack@
    }

    /// The instruction pointer, as a byte offset.
    pub closed spec fn pc(&self) -> int {
        self.head as int
    }

    /// The instruction pointer.
    pub fn head(&self) -> (r: usize)
        ensures
            r == self.pc(),
    {
        self.head
    }

    /// The operand stack, bottom first.
    pub fn stack(&self) -> (r: &[Value<'a>])
        ensures
            r@ == self.stack_values(),
            r@.map_values(|v: Value<'a>| v@) == self.stack_view(),
    {
        self.stack.as_slice()
    }

    /// The operand stack, bottom first, once the machine is done with.
    pub fn into_stack(self) -> (r: Vec<Value<'a>>)
        ensures
            r@.map_values(|v: Value<'a>| v@) == self.stack_view(),
    {
        self.stack
    }

    /// Whether a jump may land on `t`.
    fn is_target(&self, t: u64) -> (r: bool)
        requires
            self.wf(),
        ensures
            r == valid_target(self.code(), t),
    {
        let n = self.bytes.len();
        if t > n as u64 {
            false
        } else if t == n as u64 {
            true
        } else {
            self.starts[t as usize]
        }
    }

    /// The opcode at the instruction pointer, if the byte there names one.
    pub fn read_instruction(&self) -> (r: Option<Instruction>)
        requires
            self.pc() < self.code().len(),
        ensures
            r == Instruction::spec_from_opcode(self.code()[self.pc()]),
    {
        Instruction::from_opcode(self.bytes[self.head])
    }

    /// The `LEN` bytes at the instruction pointer.
    pub fn read<const LEN: usize>(&self) -> (r: [u8; LEN])
        requires
            self.pc() + LEN <= self.code().len(),
        ensures
            r@ == self.code().subrange(self.pc(), self.pc() + LEN),
    {
        read(self.bytes, self.head)
    }

    /// Pushes the result of the floating-point work that the last run handed
    /// out, given by its IEEE-754 bit pattern.
    pub fn resume(&mut self, bits: u64)
        ensures
            final(self).wf() == old(self).wf(),
            final(self).code() == old(self).code(),
            final(self).consts() == old(self).consts(),
            final(self).pc() == old(self).pc(),
            final(self).stack_view() == old(self).stack_view().push(Val::Float(bits)),
    {
        self.stack.push(Value::Float(bits));
        assert(self.stack_view() =~= old(self).stack_view().push(Val::Float(bits)));
    }

    /// Executes the instruction at the instruction pointer. On an error nothing
    /// changes; on floating-point work the operands are popped and the pointer
    /// is past the instruction, and the caller hands the result to `resume`.
    pub fn run_next(&mut self) -> (r: Result<Option<FloatOp>, VmError>)
        requires
            old(self).wf(),
            old(self).pc() < old(self).code().len(),
        ensures
            final(self).wf(),
            final(self).code() == old(self).code(),
            final(self).consts() == old(self).consts(),
            (r, final(self).pc(), final(self).stack_view()) == after_step(
                step(old(self).code(), old(self).consts(), old(self).pc(), old(self).stack_view()),
                old(self).pc(),
                old(self).stack_view(),
            ),
            (decode_at(old(self).code(), old(self).pc()) matches Ok((Instr::LoadStr(_), _)))
                ==> (final(self).stack_values().last() matches Value::Str(Text::Borrowed(_))),
            (decode_at(old(self).code(), old(self).pc()) matches Ok((Instr::BinOp(_), _))) && r
                == Ok::<Option<FloatOp>, VmError>(None) && (final(self).stack_values().last() matches Value::Str(_))
                ==> (final(self).stack_values().last() matches Value::Str(Text::Owned(_))),
    {
        let ghost s0 = self.stack_view();
        let (d, next) = match decode(self.bytes, self.head) {
            Err(e) => return Err(e),
            Ok(x) => x,
        };
        let n = self.stack.len();
        let len = self.bytes.len();
        match d {
            Decoded::Nop => {
                self.head = next;
                Ok(None)
            },
            Decoded::Dup => {
                if n == 0 {
                    return Err(VmError::StackUnderflow);
                }
                let v = self.stack[n - 1].duplicate();
                self.stack.push(v);
                self.head = next;
                assert(self.stack_view() =~= s0.push(s0.last()));
                Ok(None)
            },
            Decoded::BinOp(op) => {
                if n < 2 {
                    return Err(VmError::StackUnderflow);
                }
                let result = Value::run_binop(&self.stack[n - 2], &self.stack[n - 1], op);
                match result {
                    Err(e) => Err(e),
                    Ok(ev) => {
                        self.stack.pop();
                        self.stack.pop();
                        assert(self.stack_view() =~= s0.subrange(0, n - 2));
                        self.head = next;
                        match ev {
                            Evaluated::Value(v) => {
                                self.stack.push(v);
                                assert(self.stack_view() =~= s0.subrange(0, n - 2).push(v@));
                                Ok(None)
                            },
                            Evaluated::Float(f) => Ok(Some(f)),
                        }
                    },
                }
            },
            Decoded::LoadConst(k) => {
                if k as usize >= self.constants.len() {
                    return Err(VmError::BadConstant(k));
                }
                let v = self.constants[k as usize].duplicate();
                self.stack.push(v);
                self.head = next;
                assert(self.stack_view() =~= s0.push(self.consts()[k as int]));
                Ok(None)
            },
            Decoded::LoadInt(i) => {
                self.stack.push(Value::Int(i));
                self.head = next;
                assert(self.stack_view() =~= s0.push(Val::Int(i)));
                Ok(None)
            },
            Decoded::LoadFloat(bits) => {
                self.stack.push(Value::Float(bits));
                self.head = next;
                assert(self.stack_view() =~= s0.push(Val::Float(bits)));
                Ok(None)
            },
            Decoded::LoadStr(text) => {
                self.stack.push(Value::Str(Text::Borrowed(text)));
                self.head = next;
                assert(self.stack_view() =~= s0.push(Val::Str(text@)));
                Ok(None)
            },
            Decoded::Jump(t) => {
                if !self.is_target(t) {
                    return Err(VmError::BadJumpTarget(t));
                }
                assert(t <= len);
                self.head = t as usize;
                Ok(None)
            },
            Decoded::PopJumpIfFalse(t) => {
                if !self.is_target(t) {
                    return Err(VmError::BadJumpTarget(t));
                }
                if n == 0 {
                    return Err(VmError::StackUnderflow);
                }
                assert(t <= len);
                let truth = self.stack[n - 1].is_truthy();
                assert(truth == truthy(s0.last()));
                self.stack.pop();
                assert(self.stack_view() =~= s0.drop_last());
                if truth {
                    self.head = next;
                } else {
                    self.head = t as usize;
                }
                Ok(None)
            },
        }
    }

    /// Runs until the instruction pointer reaches or passes the end of the
    /// program, an instruction fails, or floating-point work is handed out. A run
    /// that takes `u64::MAX` steps stops with `StepLimit`.
    pub fn run(&mut self) -> (r: Result<Halt, VmError>)
        requires
            old(self).wf(),
        ensures
            final(self).wf(),
            final(self).code() == old(self).code(),
            final(self).consts() == old(self).consts(),
            (r, final(self).pc(), final(self).stack_view()) == run_from(
                old(self).code(),
                old(self).consts(),
                old(self).pc(),
                old(self).stack_view(),
                u64::MAX as nat,
            ),
    {
        let mut steps: u64 = 0;
        while self.head < self.bytes.len()
            invariant
                self.wf(),
                self.code() == old(self).code(),
                self.consts() == old(self).consts(),
                run_from(
                    old(self).code(),
                    old(self).consts(),
                    old(self).pc(),
                    old(self).stack_view(),
                    u64::MAX as nat,
                ) == run_from(
                    self.code(),
                    self.consts(),
                    self.pc(),
                    self.stack_view(),
                    (u64::MAX - steps) as nat,
                ),
            decreases u64::MAX - steps,
        {
            if steps == u64::MAX {
                return Err(VmError::StepLimit);
            }
            match self.run_next() {
                Err(e) => return Err(e),
                Ok(Some(f)) => return Ok(Halt::Float(f)),
                Ok(None) => {},
            }
            steps = steps + 1;
        }
        Ok(Halt::Finished)
    }

    /// A machine at the start of `bytes`, with an empty stack.
    pub fn new(bytes: &'a [u8], constants: &'a [Value<'a>]) -> (r: Vm<'a>)
        ensures
            r.wf(),
            r.code() == bytes@,
            r.consts() == constants@.map_values(|v: Value<'a>| v@),
            r.pc() == 0,
            r.stack_view() == Seq::<Val>::empty(),
    {
        let n = bytes.len();
        let mut starts: Vec<bool> = Vec::new();
        let mut i: usize = 0;
        while i < n
            invariant
                n == bytes@.len(),
                i <= n,
                starts@.len() == i,
                forall|t: int| 0 <= t < i ==> starts@[t] == false,
            decreases n - i,
        {
            starts.push(false);
            i = i + 1;
        }
        let mut pos: usize = 0;
        while pos < n
            invariant_except_break
                reaches(bytes@, 0, pos as int),
                forall|t: int|
                    0 <= t < n ==> #[trigger] starts@[t] == (t < pos && reaches(bytes@, 0, t)),
            invariant
                n == bytes@.len(),
                pos <= n,
                starts@.len() == n,
            ensures
                forall|t: int| 0 <= t < n ==> #[trigger] starts@[t] == reaches(bytes@, 0, t),
            decreases n - pos,
        {
            starts[pos] = true;
            match instruction_len(bytes, pos) {
                None => {
                    proof {
                        assert forall|t: int| 0 <= t < n implies #[trigger] starts@[t] == reaches(
                            bytes@,
                            0,
                            t,
                        ) by {
                            if t > pos {
                                lemma_reaches_through(bytes@, 0, pos as int, t);
                            }
                        }
                    }
                    break ;
                },
                Some(len) => {
                    proof {
                        lemma_instr_len_bounds(bytes@, pos as int);
                        let next = pos + len;
                        assert(reaches(bytes@, next, next));
                        assert(reaches(bytes@, pos as int, next));
                        lemma_reaches_through(bytes@, 0, pos as int, next);
                        assert forall|t: int| 0 <= t < n implies #[trigger] starts@[t] == (t < next
                            && reaches(bytes@, 0, t)) by {
                            if pos < t < next {
                                lemma_reaches_through(bytes@, 0, pos as int, t);
                                assert(!reaches(bytes@, next, t));
                            }
                        }
                    }
                    pos = pos + len;
                },
            }
        }
        let r = Vm { bytes, constants, starts, head: 0, stack: Vec::new() };
        assert(r.stack_view() =~= Seq::<Val>::empty());
        r
    }
}

} // verus!
