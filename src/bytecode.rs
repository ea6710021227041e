use vstd::bytes::*;
use vstd::prelude::*;
use vstd::slice::slice_subrange;
use vstd::string::*;
use vstd::utf8::*;

pub use crate::binop::BinOp;
use crate::error::VmError;
use crate::value::{Val, Value};

verus! {

broadcast use encode_utf8_decode_utf8;

/// The opcodes, in the order of their byte values.
#[derive(Debug, Clone, Copy, PartialEq, Eq, Structural)]
pub enum Instruction {
    Nop,
    Dup,
    BinOp,
    LoadConst,
    LoadInt,
    LoadFloat,
    LoadStr,
    Jump,
    PopJumpIfFalse,
}

/// Number of opcodes; every opcode byte at or above it is malformed.
pub const INSTRUCTION_COUNT: u8 = 9;

/// Width of a jump operand: an absolute byte offset, little-endian.
pub const JUMP_SIZE: usize = 8;

impl Instruction {
    pub open spec fn spec_opcode(self) -> u8 {
        match self {
            Instruction::Nop => 0,
            Instruction::Dup => 1,
            Instruction::BinOp => 2,
            Instruction::LoadConst => 3,
            Instruction::LoadInt => 4,
            Instruction::LoadFloat => 5,
            Instruction::LoadStr => 6,
            Instruction::Jump => 7,
            Instruction::PopJumpIfFalse => 8,
        }
    }

    pub open spec fn spec_from_opcode(b: u8) -> Option<Instruction> {
        if b == 0 {
            Some(Instruction::Nop)
        } else if b == 1 {
            Some(Instruction::Dup)
        } else if b == 2 {
            Some(Instruction::BinOp)
        } else if b == 3 {
            Some(Instruction::LoadConst)
        } else if b == 4 {
            Some(Instruction::LoadInt)
        } else if b == 5 {
            Some(Instruction::LoadFloat)
        } else if b == 6 {
            Some(Instruction::LoadStr)
        } else if b == 7 {
            Some(Instruction::Jump)
        } else if b == 8 {
            Some(Instruction::PopJumpIfFalse)
        } else {
            None
        }
    }

    /// Operand width in bytes; `None` for `LoadStr`, whose operand runs to a zero byte.
    pub open spec fn spec_size(self) -> Option<nat> {
        match self {
            Instruction::Nop | Instruction::Dup => Some(0),
            Instruction::BinOp => Some(1),
            Instruction::LoadConst => Some(4),
            Instruction::LoadInt | Instruction::LoadFloat => Some(8),
            Instruction::Jump | Instruction::PopJumpIfFalse => Some(8),
            Instruction::LoadStr => None,
        }
    }

    pub fn opcode(self) -> (r: u8)
        ensures
            r == self.spec_opcode(),
            r < INSTRUCTION_COUNT,
    {
        match self {
            Instruction::Nop => 0,
            Instruction::Dup => 1,
            Instruction::BinOp => 2,
            Instruction::LoadConst => 3,
            Instruction::LoadInt => 4,
            Instruction::LoadFloat => 5,
            Instruction::LoadStr => 6,
            Instruction::Jump => 7,
            Instruction::PopJumpIfFalse => 8,
        }
    }

    /// Checked mapping from a byte to an opcode: `None` for every byte at or above
    /// `INSTRUCTION_COUNT`.
    pub fn from_opcode(b: u8) -> (r: Option<Instruction>)
        ensures
            r == Self::spec_from_opcode(b),
            r.is_none() <==> b >= INSTRUCTION_COUNT,
    {
        if b == 0 {
            Some(Instruction::Nop)
        } else if b == 1 {
            Some(Instruction::Dup)
        } else if b == 2 {
            Some(Instruction::BinOp)
        } else if b == 3 {
            Some(Instruction::LoadConst)
        } else if b == 4 {
            Some(Instruction::LoadInt)
        } else if b == 5 {
            Some(Instruction::LoadFloat)
        } else if b == 6 {
            Some(Instruction::LoadStr)
        } else if b == 7 {
            Some(Instruction::Jump)
        } else if b == 8 {
            Some(Instruction::PopJumpIfFalse)
        } else {
            None
        }
    }

    /// Operand width in bytes; `None` for the one variable-length instruction, `LoadStr`.
    pub fn size(self) -> (r: Option<u8>)
        ensures
            r matches Some(n) ==> self.spec_size() == Some(n as nat),
            r is None ==> self.spec_size() is None,
    {
        match self {
            Instruction::LoadStr => None,
            Instruction::Nop | Instruction::Dup => Some(0),
            Instruction::BinOp => Some(1),
            Instruction::LoadConst => Some(4),
            Instruction::LoadInt | Instruction::LoadFloat => Some(8),
            Instruction::Jump | Instruction::PopJumpIfFalse => Some(8),
        }
    }
}

/// One decoded instruction with its operand.
pub enum Instr {
    Nop,
    Dup,
    BinOp(BinOp),
    LoadConst(u32),
    LoadInt(i64),
    LoadFloat(u64),
    LoadStr(Seq<char>),
    Jump(u64),
    PopJumpIfFalse(u64),
}

/// The 8 bytes at `pos`, read as a little-endian integer.
pub open spec fn le_u64_at(b: Seq<u8>, pos: int) -> u64 {
    spec_u64_from_le_bytes(b.subrange(pos, pos + 8))
}

/// The 4 bytes at `pos`, read as a little-endian integer.
pub open spec fn le_u32_at(b: Seq<u8>, pos: int) -> u32 {
    spec_u32_from_le_bytes(b.subrange(pos, pos + 4))
}

/// Index of the first zero byte at or after `i`, or `b.len()` when there is none.
pub open spec fn text_end(b: Seq<u8>, i: int) -> int
    decreases b.len() - i,
{
    if i < 0 || i >= b.len() {
        b.len() as int
    } else if b[i] == 0 {
        i
    } else {
        text_end(b, i + 1)
    }
}

/// Length of the instruction at `pos` when its opcode is known and its operand
/// lies within `b`. Only layout counts here, not what the operand holds.
pub open spec fn instr_len(b: Seq<u8>, pos: int) -> Option<int> {
    if 0 <= pos < b.len() {
        match Instruction::spec_from_opcode(b[pos]) {
            None => None,
            Some(op) => match op.spec_size() {
                None => {
                    let e = text_end(b, pos + 1);
                    if e < b.len() {
                        Some(e + 1 - pos)
                    } else {
                        None
                    }
                },
                Some(n) => if pos + 1 + n <= b.len() {
                    Some(1 + n as int)
                } else {
                    None
                },
            },
        }
    } else {
        None
    }
}

/// Decodes the instruction at `pos` (`pos < b.len()`): the instruction and the
/// offset just past it, or the decode error.
pub open spec fn decode_at(b: Seq<u8>, pos: int) -> Result<(Instr, int), VmError> {
    match Instruction::spec_from_opcode(b[pos]) {
        None => Err(VmError::InvalidOpcode(b[pos])),
        Some(op) => match instr_len(b, pos) {
            None => Err(VmError::Truncated),
            Some(n) => {
                let next = pos + n;
                match op {
                    Instruction::Nop => Ok((Instr::Nop, next)),
                    Instruction::Dup => Ok((Instr::Dup, next)),
                    Instruction::BinOp => match BinOp::spec_from_tag(b[pos + 1]) {
                        Some(o) => Ok((Instr::BinOp(o), next)),
                        None => Err(VmError::InvalidOperator(b[pos + 1])),
                    },
                    Instruction::LoadConst => Ok((Instr::LoadConst(le_u32_at(b, pos + 1)), next)),
                    Instruction::LoadInt => Ok((Instr::LoadInt(le_u64_at(b, pos + 1) as i64), next)),
                    Instruction::LoadFloat => Ok((Instr::LoadFloat(le_u64_at(b, pos + 1)), next)),
                    Instruction::LoadStr => {
                        let t = b.subrange(pos + 1, next - 1);
                        if valid_utf8(t) {
                            Ok((Instr::LoadStr(decode_utf8(t)), next))
                        } else {
                            Err(VmError::InvalidUtf8)
                        }
                    },
                    Instruction::Jump => Ok((Instr::Jump(le_u64_at(b, pos + 1)), next)),
                    Instruction::PopJumpIfFalse => Ok(
                        (Instr::PopJumpIfFalse(le_u64_at(b, pos + 1)), next),
                    ),
                }
            },
        },
    }
}

/// The bytes of one instruction.
pub open spec fn encode(i: Instr) -> Seq<u8> {
    match i {
        Instr::Nop => seq![0u8],
        Instr::Dup => seq![1u8],
        Instr::BinOp(o) => seq![2u8, o.spec_tag()],
        Instr::LoadConst(k) => seq![3u8] + spec_u32_to_le_bytes(k),
        Instr::LoadInt(v) => seq![4u8] + spec_u64_to_le_bytes(v as u64),
        Instr::LoadFloat(bits) => seq![5u8] + spec_u64_to_le_bytes(bits),
        Instr::LoadStr(s) => seq![6u8] + encode_utf8(s) + seq![0u8],
        Instr::Jump(t) => seq![7u8] + spec_u64_to_le_bytes(t),
        Instr::PopJumpIfFalse(t) => seq![8u8] + spec_u64_to_le_bytes(t),
    }
}

/// An instruction that has an encoding: text without a NUL character.
pub open spec fn encodable(i: Instr) -> bool {
    match i {
        Instr::LoadStr(s) => !s.contains('\0'),
        _ => true,
    }
}

proof fn lemma_text_end_at(b: Seq<u8>, i: int, j: int)
    requires
        0 <= i <= j < b.len(),
        b[j] == 0,
        forall|k: int| i <= k < j ==> b[k] != 0,
    ensures
        text_end(b, i) == j,
    decreases j - i,
{
    if i < j {
        lemma_text_end_at(b, i + 1, j);
    }
}

proof fn lemma_scalar_has_no_zero_byte(c: u32)
    requires
        c != 0,
        is_scalar(c),
    ensures
        !encode_scalar(c).contains(0u8),
{
    let e = encode_scalar(c);
    assert((0x80u8 | ((c & 0x3F) as u8)) != 0) by (bit_vector);
    assert((0x80u8 | (((c >> 6) & 0x3F) as u8)) != 0) by (bit_vector);
    assert((0x80u8 | (((c >> 12) & 0x3F) as u8)) != 0) by (bit_vector);
    assert((0xC0u8 | (((c >> 6) & 0x1F) as u8)) != 0) by (bit_vector);
    assert((0xE0u8 | (((c >> 12) & 0x0F) as u8)) != 0) by (bit_vector);
    assert((0xF0u8 | (((c >> 18) & 0x7) as u8)) != 0) by (bit_vector);
    assert(c <= 0x7F && c != 0 ==> ((c & 0x7F) as u8) != 0) by (bit_vector);
    assert forall|k: int| 0 <= k < e.len() implies e[k] != 0u8 by {}
}

/// Text without a NUL character encodes to bytes without a zero byte.
proof fn lemma_no_zero_byte(s: Seq<char>)
    requires
        !s.contains('\0'),
    ensures
        !encode_utf8(s).contains(0u8),
    decreases s.len(),
{
    broadcast use char_is_scalar, char_u32_cast;

    if s.len() > 0 {
        let rest = s.drop_first();
        assert forall|k: int| 0 <= k < rest.len() implies rest[k] != '\0' by {
            assert(rest[k] == s[k + 1]);
        }
        lemma_no_zero_byte(rest);
        assert(s[0] != '\0') by {
            assert(s.contains(s[0]));
        }
        char_is_scalar(s[0]);
        char_u32_cast(s[0], s[0] as u32);
        char_u32_cast('\0', '\0' as u32);
        assert(('\0' as u32) == 0);
        assert((s[0] as u32) != 0);
        lemma_scalar_has_no_zero_byte(s[0] as u32);
        let a = encode_scalar(s[0] as u32);
        let e = encode_utf8(s);
        assert(e == a + encode_utf8(rest));
        assert forall|k: int| 0 <= k < e.len() implies e[k] != 0u8 by {
            if k < a.len() {
                assert(e[k] == a[k]);
                assert(a.contains(a[k]));
            } else {
                assert(e[k] == encode_utf8(rest)[k - a.len()]);
                assert(encode_utf8(rest).contains(encode_utf8(rest)[k - a.len()]));
            }
        }
    }
}

proof fn lemma_decode_encode_text(pre: Seq<u8>, s: Seq<char>, post: Seq<u8>)
    requires
        !s.contains('\0'),
    ensures
        instr_len(pre + encode(Instr::LoadStr(s)) + post, pre.len() as int) == Some(
            encode(Instr::LoadStr(s)).len() as int,
        ),
        decode_at(pre + encode(Instr::LoadStr(s)) + post, pre.len() as int) == Ok::<
            (Instr, int),
            VmError,
        >((Instr::LoadStr(s), pre.len() + encode(Instr::LoadStr(s)).len() as int)),
{
    let e = encode(Instr::LoadStr(s));
    let b = pre + e + post;
    let p = pre.len() as int;
    assert(b[p] == e[0]);
    let t = encode_utf8(s);
    lemma_no_zero_byte(s);
    assert forall|k: int| p + 1 <= k < p + 1 + t.len() implies b[k] != 0 by {
        assert(b[k] == e[k - p]);
        assert(e[k - p] == t[k - p - 1]);
        assert(t.contains(t[k - p - 1]));
    }
    assert(b[p + 1 + t.len()] == e[1 + t.len() as int]);
    lemma_text_end_at(b, p + 1, p + 1 + t.len());
    assert(b.subrange(p + 1, p + 1 + t.len()) =~= t);
    encode_utf8_valid_utf8(s);
    assert(e.len() == t.len() + 2);
    assert(decode_utf8(t) == s);
}

/// An instruction written out and read back at any offset of any program is
/// the same instruction, and its length is the length of its bytes.
pub proof fn lemma_decode_encode(pre: Seq<u8>, i: Instr, post: Seq<u8>)
    requires
        encodable(i),
    ensures
        instr_len(pre + encode(i) + post, pre.len() as int) == Some(encode(i).len() as int),
        decode_at(pre + encode(i) + post, pre.len() as int) == Ok::<(Instr, int), VmError>(
            (i, pre.len() + encode(i).len() as int),
        ),
{
    lemma_auto_spec_u64_to_from_le_bytes();
    lemma_auto_spec_u32_to_from_le_bytes();
    let e = encode(i);
    let b = pre + e + post;
    let p = pre.len() as int;
    assert(b[p] == e[0]);
    assert forall|k: int| 0 <= k < e.len() implies b[p + k] == e[k] by {}
    match i {
        Instr::LoadStr(s) => {
            lemma_decode_encode_text(pre, s, post);
        },
        Instr::BinOp(o) => {
            assert(b[p + 1] == e[1]);
        },
        Instr::LoadConst(k) => {
            assert(b.subrange(p + 1, p + 5) =~= spec_u32_to_le_bytes(k));
        },
        Instr::LoadInt(v) => {
            assert(b.subrange(p + 1, p + 9) =~= spec_u64_to_le_bytes(v as u64));
            assert(le_u64_at(b, p + 1) == v as u64);
            assert((v as u64) as i64 == v) by (bit_vector);
        },
        Instr::LoadFloat(v) => {
            assert(b.subrange(p + 1, p + 9) =~= spec_u64_to_le_bytes(v));
        },
        Instr::Jump(v) => {
            assert(b.subrange(p + 1, p + 9) =~= spec_u64_to_le_bytes(v));
        },
        Instr::PopJumpIfFalse(v) => {
            assert(b.subrange(p + 1, p + 9) =~= spec_u64_to_le_bytes(v));
        },
        _ => {},
    }
}

/// Whether decoding instruction after instruction from `from` lands on `t`.
pub open spec fn reaches(b: Seq<u8>, from: int, t: int) -> bool
    decreases t - from,
{
    if from == t {
        true
    } else if from > t {
        false
    } else {
        match instr_len(b, from) {
            Some(n) => if n > 0 && from + n <= t {
                reaches(b, from + n, t)
            } else {
                false
            },
            None => false,
        }
    }
}

/// Reaching a point on the way to `t` leaves the rest of the way to `t` unchanged.
pub proof fn lemma_reaches_through(b: Seq<u8>, a: int, m: int, t: int)
    requires
        reaches(b, a, m),
        a <= m <= t,
    ensures
        reaches(b, a, t) == reaches(b, m, t),
    decreases m - a,
{
    if a < m {
        let n = instr_len(b, a)->Some_0;
        if a + n > m {
            assert(!reaches(b, a + n, m));
        } else {
            lemma_reaches_through(b, a + n, m, t);
        }
    }
}

/// An instruction has at least its opcode byte and lies within the program.
pub proof fn lemma_instr_len_bounds(b: Seq<u8>, pos: int)
    requires
        instr_len(b, pos) is Some,
    ensures
        1 <= instr_len(b, pos)->Some_0,
        pos + instr_len(b, pos)->Some_0 <= b.len(),
{
    lemma_text_end_bounds(b, pos + 1);
}

/// Whether `b` is a whole number of instructions.
pub open spec fn whole_instructions(b: Seq<u8>) -> bool {
    reaches(b, 0, b.len() as int)
}

pub proof fn lemma_text_end_extend(b: Seq<u8>, x: Seq<u8>, i: int)
    requires
        0 <= i <= b.len(),
        text_end(b, i) < b.len(),
    ensures
        text_end(b + x, i) == text_end(b, i),
    decreases b.len() - i,
{
    if i < b.len() && b[i] != 0 {
        lemma_text_end_extend(b, x, i + 1);
    }
}

/// A complete instruction keeps its length when bytes follow it.
pub proof fn lemma_instr_len_extend(b: Seq<u8>, x: Seq<u8>, a: int)
    requires
        instr_len(b, a) is Some,
    ensures
        instr_len(b + x, a) == instr_len(b, a),
{
    assert((b + x)[a] == b[a]);
    if Instruction::spec_from_opcode(b[a]) == Some(Instruction::LoadStr) {
        lemma_text_end_bounds(b, a + 1);
        lemma_text_end_extend(b, x, a + 1);
    }
}

/// Decoding through `b` is not disturbed by bytes appended after it.
pub proof fn lemma_reaches_extend(b: Seq<u8>, x: Seq<u8>, a: int, t: int)
    requires
        reaches(b, a, t),
        0 <= a,
        t <= b.len(),
    ensures
        reaches(b + x, a, t),
    decreases t - a,
{
    if a < t {
        let n = instr_len(b, a)->Some_0;
        lemma_instr_len_extend(b, x, a);
        lemma_reaches_extend(b, x, a + n, t);
    }
}

/// Decoding runs across an instruction written at `pre.len()`.
pub proof fn lemma_reaches_over(pre: Seq<u8>, i: Instr, post: Seq<u8>)
    requires
        encodable(i),
    ensures
        reaches(pre + encode(i) + post, pre.len() as int, (pre.len() + encode(i).len()) as int),
{
    lemma_decode_encode(pre, i, post);
    lemma_instr_len_bounds(pre + encode(i) + post, pre.len() as int);
    assert(reaches(
        pre + encode(i) + post,
        (pre.len() + encode(i).len()) as int,
        (pre.len() + encode(i).len()) as int,
    ));
}

/// What `text_end` finds: a zero byte, with none before it.
pub proof fn lemma_text_end_facts(b: Seq<u8>, i: int)
    requires
        0 <= i <= b.len(),
    ensures
        forall|k: int| i <= k < text_end(b, i) ==> b[k] != 0,
        text_end(b, i) < b.len() ==> b[text_end(b, i)] == 0,
    decreases b.len() - i,
{
    if i < b.len() && b[i] != 0 {
        lemma_text_end_facts(b, i + 1);
    }
}

proof fn lemma_text_end_suffix(b: Seq<u8>, c: Seq<u8>, i: int)
    requires
        b.len() == c.len(),
        0 <= i,
        forall|k: int| i <= k < b.len() ==> b[k] == c[k],
    ensures
        text_end(c, i) == text_end(b, i),
    decreases b.len() - i,
{
    if i < b.len() {
        lemma_text_end_suffix(b, c, i + 1);
    }
}

/// Bytes equal from `a` on give the same instruction length at `a`.
pub proof fn lemma_instr_len_suffix(b: Seq<u8>, c: Seq<u8>, a: int)
    requires
        b.len() == c.len(),
        0 <= a,
        forall|k: int| a <= k < b.len() ==> b[k] == c[k],
    ensures
        instr_len(c, a) == instr_len(b, a),
{
    if a < b.len() {
        assert(b[a] == c[a]);
        lemma_text_end_suffix(b, c, a + 1);
    }
}

/// An instruction's length depends on its own bytes only.
pub proof fn lemma_instr_len_local(b: Seq<u8>, c: Seq<u8>, a: int)
    requires
        instr_len(b, a) is Some,
        b.len() == c.len(),
        forall|k: int| a <= k < a + instr_len(b, a)->Some_0 ==> b[k] == c[k],
    ensures
        instr_len(c, a) == instr_len(b, a),
{
    lemma_instr_len_bounds(b, a);
    assert(b[a] == c[a]);
    if Instruction::spec_from_opcode(b[a]) == Some(Instruction::LoadStr) {
        lemma_text_end_bounds(b, a + 1);
        lemma_text_end_facts(b, a + 1);
        let e = text_end(b, a + 1);
        assert(c[e] == 0);
        assert forall|k: int| a + 1 <= k < e implies c[k] != 0 by {
            assert(b[k] == c[k]);
        }
        lemma_text_end_at(c, a + 1, e);
    }
}

/// Appending bytes after whole instructions adds no instruction start before
/// the old end.
pub proof fn lemma_reaches_append_back(b: Seq<u8>, x: Seq<u8>, a: int, t: int)
    requires
        reaches(b, a, b.len() as int),
        0 <= a <= t <= b.len(),
        reaches(b + x, a, t),
    ensures
        reaches(b, a, t),
    decreases t - a,
{
    if a < t {
        let n = instr_len(b, a)->Some_0;
        lemma_instr_len_extend(b, x, a);
        lemma_reaches_append_back(b, x, a + n, t);
    }
}

/// Rewriting the operand of the jump that starts at `s` leaves every
/// instruction start where it was.
pub proof fn lemma_patch_keeps_starts(b: Seq<u8>, c: Seq<u8>, s: int, a: int, t: int)
    requires
        b.len() == c.len(),
        reaches(b, 0, s),
        reaches(b, 0, a),
        0 <= s,
        s + 9 <= b.len(),
        b[s] == 7 || b[s] == 8,
        forall|k: int| 0 <= k < b.len() && !(s < k < s + 9) ==> b[k] == c[k],
    ensures
        reaches(c, a, t) == reaches(b, a, t),
    decreases t - a,
{
    if a < t {
        assert(0 <= a) by {
            if a < 0 {
                assert(!reaches(b, 0, a));
            }
        }
        if a < s {
            lemma_reaches_through(b, 0, a, s);
            lemma_instr_len_local(b, c, a);
        } else if a == s {
            assert(b[s] == c[s]);
        } else {
            lemma_reaches_through(b, 0, s, a);
            lemma_instr_len_suffix(b, c, a);
        }
        match instr_len(b, a) {
            Some(n) => {
                if n > 0 && a + n <= t {
                    assert(reaches(b, a + n, a + n));
                    assert(reaches(b, a, a + n));
                    lemma_reaches_through(b, 0, a, a + n);
                    lemma_patch_keeps_starts(b, c, s, a + n, t);
                }
            },
            None => {},
        }
    }
}

proof fn lemma_text_end_shift(y: Seq<u8>, u: Seq<u8>, i: int)
    requires
        0 <= i <= u.len(),
    ensures
        text_end(y + u, y.len() + i) == y.len() + text_end(u, i),
    decreases u.len() - i,
{
    if i < u.len() {
        assert((y + u)[y.len() + i] == u[i]);
        if u[i] != 0 {
            lemma_text_end_shift(y, u, i + 1);
        }
    }
}

/// Bytes put in front of an instruction do not change its length.
pub proof fn lemma_instr_len_shift(y: Seq<u8>, u: Seq<u8>, a: int)
    requires
        0 <= a,
    ensures
        instr_len(y + u, y.len() + a) == instr_len(u, a),
{
    if a < u.len() {
        assert((y + u)[y.len() + a] == u[a]);
        lemma_text_end_shift(y, u, a + 1);
    }
}

/// Decoding through `u` goes the same way with bytes put in front of it.
pub proof fn lemma_reaches_shift(y: Seq<u8>, u: Seq<u8>, a: int, t: int)
    requires
        reaches(u, a, t),
        0 <= a,
    ensures
        reaches(y + u, y.len() + a, y.len() + t),
    decreases t - a,
{
    if a < t {
        let n = instr_len(u, a)->Some_0;
        lemma_instr_len_shift(y, u, a);
        lemma_reaches_shift(y, u, a + n, t);
    }
}

/// Decoded instruction, with a text literal borrowed from the program's bytes.
#[derive(Debug, Clone, Copy)]
pub enum Decoded<'a> {
    Nop,
    Dup,
    BinOp(BinOp),
    LoadConst(u32),
    LoadInt(i64),
    LoadFloat(u64),
    LoadStr(&'a str),
    Jump(u64),
    PopJumpIfFalse(u64),
}

impl<'a> View for Decoded<'a> {
    type V = Instr;

    open spec fn view(&self) -> Instr {
        match self {
            Decoded::Nop => Instr::Nop,
            Decoded::Dup => Instr::Dup,
            Decoded::BinOp(o) => Instr::BinOp(*o),
            Decoded::LoadConst(k) => Instr::LoadConst(*k),
            Decoded::LoadInt(v) => Instr::LoadInt(*v),
            Decoded::LoadFloat(bits) => Instr::LoadFloat(*bits),
            Decoded::LoadStr(s) => Instr::LoadStr(s@),
            Decoded::Jump(t) => Instr::Jump(*t),
            Decoded::PopJumpIfFalse(t) => Instr::PopJumpIfFalse(*t),
        }
    }
}

/// `decode_at` read through the view of an executable result.
pub open spec fn decoded_matches<'a>(
    r: Result<(Decoded<'a>, usize), VmError>,
    m: Result<(Instr, int), VmError>,
) -> bool {
    match r {
        Ok((d, next)) => m == Ok::<(Instr, int), VmError>((d@, next as int)),
        Err(e) => m == Err::<(Instr, int), VmError>(e),
    }
}

/// Relies on `std::str::from_utf8`: it accepts exactly the valid UTF-8 byte
/// sequences, and the text it returns views those same bytes.
#[verifier::external_body]
fn utf8_text<'a>(b: &'a [u8]) -> (r: Option<&'a str>)
    ensures
        r.is_some() == valid_utf8(b@),
        r matches Some(s) ==> s.spec_bytes() == b@,
{
    std::str::from_utf8(b).ok()
}

/// `LEN` bytes of `slice` starting at `head`.
pub fn read<const LEN: usize>(slice: &[u8], head: usize) -> (r: [u8; LEN])
    requires
        head + LEN <= slice@.len(),
    ensures
        r@ == slice@.subrange(head as int, head + LEN),
{
    let mut out = [0u8; LEN];
    let n = slice.len();
    let mut i: usize = 0;
    while i < LEN
        invariant
            head + LEN <= slice@.len(),
            i <= LEN,
            out@.len() == LEN,
            forall|k: int| 0 <= k < i ==> out@[k] == slice@[head + k],
            n == slice@.len(),
        decreases LEN - i,
    {
        out[i] = slice[head + i];
        i = i + 1;
    }
    assert(out@ == slice@.subrange(head as int, head + LEN));
    out
}

pub proof fn lemma_text_end_bounds(b: Seq<u8>, i: int)
    requires
        0 <= i <= b.len(),
    ensures
        i <= text_end(b, i) <= b.len(),
    decreases b.len() - i,
{
    if i < b.len() && b[i] != 0 {
        lemma_text_end_bounds(b, i + 1);
    }
}

pub proof fn lemma_text_end_none(b: Seq<u8>, i: int)
    requires
        0 <= i <= b.len(),
        forall|k: int| i <= k < b.len() ==> b[k] != 0,
    ensures
        text_end(b, i) == b.len(),
    decreases b.len() - i,
{
    if i < b.len() {
        lemma_text_end_none(b, i + 1);
    }
}

/// The longest prefix of `slice` in which no byte equals `target`.
pub fn slice_take_while_ne<'a>(slice: &'a [u8], target: &u8) -> (r: &'a [u8])
    ensures
        r@.len() <= slice@.len(),
        r@ == slice@.subrange(0, r@.len() as int),
        forall|k: int| 0 <= k < r@.len() ==> slice@[k] != *target,
        r@.len() < slice@.len() ==> slice@[r@.len() as int] == *target,
{
    let mut i: usize = 0;
    while i < slice.len()
        invariant
            i <= slice@.len(),
            forall|k: int| 0 <= k < i ==> slice@[k] != *target,
        decreases slice@.len() - i,
    {
        if slice[i] == *target {
            return slice_subrange(slice, 0, i);
        }
        i = i + 1;
    }
    assert(slice@ == slice@.subrange(0, slice@.len() as int));
    slice
}

/// Index of the first zero byte at or after `from`, or `b.len()`.
pub(crate) fn find_text_end(b: &[u8], from: usize) -> (r: usize)
    requires
        from <= b@.len(),
    ensures
        r as int == text_end(b@, from as int),
{
    let rest = slice_subrange(b, from, b.len());
    let text = slice_take_while_ne(rest, &0u8);
    proof {
        let n = text@.len() as int;
        assert forall|k: int| from <= k < from + n implies b@[k] != 0 by {
            assert(b@[k] == rest@[k - from]);
        }
        if n < rest@.len() {
            assert(b@[from + n] == rest@[n]);
            lemma_text_end_at(b@, from as int, from + n);
        } else {
            lemma_text_end_none(b@, from as int);
        }
    }
    from + text.len()
}

/// Decodes the instruction at `pos`.
pub fn decode<'a>(b: &'a [u8], pos: usize) -> (r: Result<(Decoded<'a>, usize), VmError>)
    requires
        pos < b@.len(),
    ensures
        decoded_matches(r, decode_at(b@, pos as int)),
{
    let op = match Instruction::from_opcode(b[pos]) {
        None => return Err(VmError::InvalidOpcode(b[pos])),
        Some(op) => op,
    };
    match op.size() {
        None => {
            let e = find_text_end(b, pos + 1);
            proof {
                lemma_text_end_bounds(b@, pos + 1);
            }
            if e >= b.len() {
                return Err(VmError::Truncated);
            }
            let t = slice_subrange(b, pos + 1, e);
            match utf8_text(t) {
                None => Err(VmError::InvalidUtf8),
                Some(s) => {
                    proof {
                        assert(decode_utf8(encode_utf8(s@)) == s@);
                    }
                    Ok((Decoded::LoadStr(s), e + 1))
                },
            }
        },
        Some(n) => {
            if n as usize > b.len() - pos - 1 {
                return Err(VmError::Truncated);
            }
            let next = pos + 1 + n as usize;
            let d = match op {
                Instruction::Nop => Decoded::Nop,
                Instruction::Dup => Decoded::Dup,
                Instruction::BinOp => match BinOp::from_tag(b[pos + 1]) {
                    Some(o) => Decoded::BinOp(o),
                    None => return Err(VmError::InvalidOperator(b[pos + 1])),
                },
                Instruction::LoadConst => Decoded::LoadConst(
                    u32_from_le_bytes(slice_subrange(b, pos + 1, next)),
                ),
                Instruction::LoadInt => {
                    let raw = u64_from_le_bytes(slice_subrange(b, pos + 1, next));
                    Decoded::LoadInt(#[verifier::truncate] (raw as i64))
                },
                Instruction::LoadFloat => Decoded::LoadFloat(
                    u64_from_le_bytes(slice_subrange(b, pos + 1, next)),
                ),
                Instruction::Jump => Decoded::Jump(
                    u64_from_le_bytes(slice_subrange(b, pos + 1, next)),
                ),
                _ => Decoded::PopJumpIfFalse(u64_from_le_bytes(slice_subrange(b, pos + 1, next))),
            };
            Ok((d, next))
        },
    }
}


/// A program under construction, as contracts see it: its bytes, its constant
/// table, and the byte offsets of jump operands that still await their target.
pub struct PoolView {
    pub bytes: Seq<u8>,
    pub constants: Seq<Val>,
    pub pending: Set<int>,
}

/// A jump operand at `h` that was emitted as a placeholder and not yet patched:
/// a jump opcode just before it and eight zero bytes.
pub open spec fn is_placeholder(b: Seq<u8>, h: int) -> bool {
    &&& 1 <= h
    &&& h + 8 <= b.len()
    &&& (b[h - 1] == 7 || b[h - 1] == 8)
    &&& forall|k: int| h <= k < h + 8 ==> b[k] == 0
}

/// No value stands twice in a constant table.
pub open spec fn distinct_values(c: Seq<Val>) -> bool {
    forall|i: int, j: int| 0 <= i < j < c.len() ==> c[i] != c[j]
}

/// The constant table after inserting `v`: unchanged when an equal value is
/// there, `v` appended otherwise.
pub open spec fn inserted(c: Seq<Val>, v: Val) -> Seq<Val> {
    if c.contains(v) {
        c
    } else {
        c.push(v)
    }
}

/// `b` with the 8 bytes at `h` replaced by `target`, little-endian.
pub open spec fn patched(b: Seq<u8>, h: int, target: u64) -> Seq<u8> {
    b.subrange(0, h) + spec_u64_to_le_bytes(target) + b.subrange(h + 8, b.len() as int)
}

/// `pre` followed by a conditional skip over `body`.
pub open spec fn if_code(pre: Seq<u8>, body: Seq<u8>) -> Seq<u8> {
    pre + encode(Instr::PopJumpIfFalse((pre.len() + 9 + body.len()) as u64)) + body
}

/// `pre` followed by `then_body`, which ends by jumping past `else_body`, and
/// `else_body`, where the condition's jump lands when it is false.
pub open spec fn if_else_code(pre: Seq<u8>, then_body: Seq<u8>, else_body: Seq<u8>) -> Seq<u8> {
    let else_start = pre.len() + 9 + then_body.len() + 9;
    pre + encode(Instr::PopJumpIfFalse(else_start as u64)) + then_body + encode(
        Instr::Jump((else_start + else_body.len()) as u64),
    ) + else_body
}

/// `pre` followed by `body` and a jump back to the start of `body`.
pub open spec fn loop_code(pre: Seq<u8>, body: Seq<u8>) -> Seq<u8> {
    pre + body + encode(Instr::Jump(pre.len() as u64))
}

/// `pre` followed by `cond`, a conditional exit past the loop, `body`, and a
/// jump back to the start of `cond`.
pub open spec fn while_code(pre: Seq<u8>, cond: Seq<u8>, body: Seq<u8>) -> Seq<u8> {
    let end = pre.len() + cond.len() + 9 + body.len() + 9;
    pre + cond + encode(Instr::PopJumpIfFalse(end as u64)) + body + encode(
        Instr::Jump(pre.len() as u64),
    )
}

/// Every `LoadConst` that starts an instruction of `b` names an index below
/// `n`: decoding it gives `LoadConst(le_u32_at(b, t + 1))`.
pub open spec fn consts_in_range(b: Seq<u8>, n: nat) -> bool {
    forall|t: int|
        #[trigger] reaches(b, 0, t) && 0 <= t < b.len() && b[t] == 3 ==> le_u32_at(b, t + 1) < n
}

/// The bytes of `b` from offset `from` to its end.
pub open spec fn tail_from(b: Seq<u8>, from: nat) -> Seq<u8> {
    b.subrange(from as int, b.len() as int)
}

/// `v` with the jump `i` appended as a placeholder, its operand now pending.
pub open spec fn opened(v: PoolView, i: Instr) -> PoolView {
    PoolView {
        bytes: v.bytes + encode(i),
        constants: v.constants,
        pending: v.pending.insert((v.bytes.len() + 1) as int),
    }
}

/// `v` after `patch_jump(h)`: the operand at `h` points at the end of the
/// program, and `h` is no longer pending.
pub open spec fn patched_view(v: PoolView, h: nat) -> PoolView {
    PoolView {
        bytes: patched(v.bytes, h as int, v.bytes.len() as u64),
        constants: v.constants,
        pending: v.pending.remove(h as int),
    }
}

/// `q` is `p` with code appended: a well-formed pool whose bytes start with
/// `p`'s, whose constant table starts with `p`'s, and in which every jump of
/// `p` still awaiting its target still does.
pub open spec fn appends(p: PoolView, q: PoolView) -> bool {
    &&& q.wf()
    &&& p.bytes.len() <= q.bytes.len()
    &&& q.bytes.subrange(0, p.bytes.len() as int) == p.bytes
    &&& p.constants.len() <= q.constants.len()
    &&& q.constants.subrange(0, p.constants.len() as int) == p.constants
    &&& p.pending.subset_of(q.pending)
}

/// `body` emits code: it accepts any well-formed pool and hands back that pool
/// with code appended.
pub open spec fn emits_body<'a, F: FnOnce(Pool<'a>) -> Pool<'a>>(body: F) -> bool {
    &&& forall|p: Pool<'a>| p@.wf() ==> #[trigger] call_requires(body, (p,))
    &&& forall|p: Pool<'a>, q: Pool<'a>|
        p@.wf() && #[trigger] call_ensures(body, (p,), q) ==> appends(p@, q@)
}

impl PoolView {
    /// Every pending handle is the operand of an unpatched jump instruction and
    /// no two overlap; the constant table holds each value once; the bytes are a
    /// whole number of instructions, and every `LoadConst` among them names an
    /// entry of the constant table.
    pub open spec fn wf(self) -> bool {
        &&& forall|h: int| #[trigger] self.pending.contains(h) ==> is_placeholder(self.bytes, h)
        &&& forall|h1: int, h2: int|
            #[trigger] self.pending.contains(h1) && #[trigger] self.pending.contains(h2) && h1
                < h2 ==> h1 + 9 <= h2
        &&& forall|h: int| #[trigger] self.pending.contains(h) ==> reaches(self.bytes, 0, h - 1)
        &&& distinct_values(self.constants)
        &&& whole_instructions(self.bytes)
        &&& consts_in_range(self.bytes, self.constants.len())
    }

    /// This program with `i` appended.
    pub open spec fn emitted(self, i: Instr) -> PoolView {
        PoolView { bytes: self.bytes + encode(i), constants: self.constants, pending: self.pending }
    }
}

/// A zero placeholder target is eight zero bytes.
pub proof fn lemma_zero_target()
    ensures
        spec_u64_to_le_bytes(0) =~= seq![0u8, 0u8, 0u8, 0u8, 0u8, 0u8, 0u8, 0u8],
{
    spec_u64_to_le_bytes_to_open(0);
    let x: u64 = 0;
    assert({
        &&& (x & 0xff) == 0
        &&& ((x >> 8) & 0xff) == 0
        &&& ((x >> 16) & 0xff) == 0
        &&& ((x >> 24) & 0xff) == 0
        &&& ((x >> 32) & 0xff) == 0
        &&& ((x >> 40) & 0xff) == 0
        &&& ((x >> 48) & 0xff) == 0
        &&& ((x >> 56) & 0xff) == 0
    }) by (bit_vector)
        requires
            x == 0,
    ;
}

/// An instruction that starts at `t` in a whole program ends inside it.
proof fn lemma_start_fits(b: Seq<u8>, t: int)
    requires
        whole_instructions(b),
        reaches(b, 0, t),
        0 <= t < b.len(),
    ensures
        instr_len(b, t) is Some,
        t + instr_len(b, t)->Some_0 <= b.len(),
        reaches(b, t, b.len() as int),
{
    lemma_reaches_through(b, 0, t, b.len() as int);
}

/// Appending one encodable instruction keeps a pool well formed, provided a
/// `LoadConst` names an existing constant.
proof fn lemma_emit_keeps_wf(v: PoolView, i: Instr)
    requires
        v.wf(),
        encodable(i),
        i matches Instr::LoadConst(k) ==> k < v.constants.len(),
    ensures
        v.emitted(i).wf(),
{
    let b = v.bytes;
    let e = encode(i);
    let w = v.emitted(i);
    let c = w.bytes;
    let l = b.len() as int;
    assert(c =~= b + e + Seq::<u8>::empty());
    lemma_decode_encode(b, i, Seq::<u8>::empty());
    lemma_instr_len_bounds(c, l);
    lemma_reaches_extend(b, e, 0, l);
    assert(reaches(c, c.len() as int, c.len() as int));
    assert(reaches(c, l, c.len() as int));
    lemma_reaches_through(c, 0, l, c.len() as int);
    assert forall|h: int| #[trigger] w.pending.contains(h) implies is_placeholder(c, h) && reaches(
        c,
        0,
        h - 1,
    ) by {
        assert(is_placeholder(b, h));
        assert forall|k: int| h <= k < h + 8 implies c[k] == 0 by {
            assert(c[k] == b[k]);
        }
        assert(c[h - 1] == b[h - 1]);
        lemma_reaches_extend(b, e, 0, h - 1);
    }
    assert forall|t: int| #[trigger] reaches(c, 0, t) && 0 <= t < c.len() && c[t] == 3 implies le_u32_at(
        c,
        t + 1,
    ) < w.constants.len() by {
        if t < l {
            lemma_reaches_append_back(b, e, 0, t);
            lemma_start_fits(b, t);
            assert(c[t] == b[t]);
            assert(c.subrange(t + 1, t + 5) =~= b.subrange(t + 1, t + 5));
        } else if t == l {
            assert(c[t] == e[0]);
        } else {
            lemma_reaches_through(c, 0, l, t);
        }
    }
}

/// The builder: an append-only byte buffer, a deduplicated constant table, and
/// the jump placeholders that still have to be patched.
pub struct Pool<'a> {
    items: Vec<u8>,
    constants: Vec<Value<'a>>,
    pending: Ghost<Set<int>>,
}

impl<'a> View for Pool<'a> {
    type V = PoolView;

    closed spec fn view(&self) -> PoolView {
        PoolView {
            bytes: self.items@,
            constants: self.constants@.map_values(|v: Value<'a>| v@),
            pending: self.pending@,
        }
    }
}

fn append_bytes(v: &mut Vec<u8>, b: &[u8])
    ensures
        final(v)@ == old(v)@ + b@,
{
    let mut i: usize = 0;
    while i < b.len()
        invariant
            i <= b@.len(),
            v@ == old(v)@ + b@.subrange(0, i as int),
        decreases b@.len() - i,
    {
        v.push(b[i]);
        assert(b@.subrange(0, i + 1) == b@.subrange(0, i as int).push(b@[i as int]));
        i = i + 1;
    }
    assert(b@.subrange(0, b@.len() as int) == b@);
}

impl<'a> Default for Pool<'a> {
    fn default() -> (r: Pool<'a>)
        ensures
            r@.bytes == Seq::<u8>::empty(),
            r@.constants == Seq::<Val>::empty(),
            r@.pending == Set::<int>::empty(),
            r@.wf(),
    {
        Pool::new()
    }
}

impl<'a> Pool<'a> {
    /// An empty program.
    pub fn new() -> (r: Pool<'a>)
        ensures
            r@.bytes == Seq::<u8>::empty(),
            r@.constants == Seq::<Val>::empty(),
            r@.pending == Set::<int>::empty(),
            r@.wf(),
    {
        let r = Pool { items: Vec::new(), constants: Vec::new(), pending: Ghost(Set::empty()) };
        assert(r@.constants =~= Seq::<Val>::empty());
        r
    }

    /// Appends the bytes of a complete instruction.
    fn emit_bytes(&mut self, code: &[u8], Ghost(i): Ghost<Instr>)
        requires
            old(self)@.wf(),
            code@ == encode(i),
            encodable(i),
            i matches Instr::LoadConst(k) ==> k < old(self)@.constants.len(),
        ensures
            final(self)@ == old(self)@.emitted(i),
            final(self)@.wf(),
    {
        append_bytes(&mut self.items, code);
        proof {
            lemma_emit_keeps_wf(old(self)@, i);
        }
    }

    pub fn push_dup(&mut self)
        requires
            old(self)@.wf(),
        ensures
            final(self)@ == old(self)@.emitted(Instr::Dup),
            final(self)@.wf(),
    {
        let code = [1u8];
        assert(code@ =~= encode(Instr::Dup));
        self.emit_bytes(&code, Ghost(Instr::Dup));
    }

    pub fn push_int(&mut self, value: i64)
        requires
            old(self)@.wf(),
        ensures
            final(self)@ == old(self)@.emitted(Instr::LoadInt(value)),
            final(self)@.wf(),
    {
        let mut code = vec![4u8];
        let le = u64_to_le_bytes(#[verifier::truncate] (value as u64));
        append_bytes(&mut code, le.as_slice());
        assert(code@ =~= encode(Instr::LoadInt(value)));
        self.emit_bytes(code.as_slice(), Ghost(Instr::LoadInt(value)));
    }

    /// Appends a float given by its IEEE-754 bit pattern.
    pub fn push_float(&mut self, bits: u64)
        requires
            old(self)@.wf(),
        ensures
            final(self)@ == old(self)@.emitted(Instr::LoadFloat(bits)),
            final(self)@.wf(),
    {
        let mut code = vec![5u8];
        let le = u64_to_le_bytes(bits);
        append_bytes(&mut code, le.as_slice());
        assert(code@ =~= encode(Instr::LoadFloat(bits)));
        self.emit_bytes(code.as_slice(), Ghost(Instr::LoadFloat(bits)));
    }

    /// Appends a text literal: its UTF-8 bytes and a zero terminator.
    pub fn push_str(&mut self, text: &str)
        requires
            old(self)@.wf(),
            !text@.contains('\0'),
        ensures
            final(self)@ == old(self)@.emitted(Instr::LoadStr(text@)),
            final(self)@.wf(),
    {
        let mut code = vec![6u8];
        append_bytes(&mut code, text.as_bytes());
        code.push(0u8);
        assert(code@ =~= encode(Instr::LoadStr(text@)));
        self.emit_bytes(code.as_slice(), Ghost(Instr::LoadStr(text@)));
    }

    /// Appends a jump with a zero placeholder target and returns the handle: the
    /// byte offset of its operand, to be given to `patch_jump` exactly once.
    fn emit_placeholder(&mut self, opcode: u8) -> (h: usize)
        requires
            old(self)@.wf(),
            opcode == 7 || opcode == 8,
        ensures
            h == old(self)@.bytes.len() + 1,
            final(self)@.bytes == old(self)@.bytes + seq![opcode] + spec_u64_to_le_bytes(0),
            final(self)@.constants == old(self)@.constants,
            final(self)@.pending == old(self)@.pending.insert(h as int),
            final(self)@.wf(),
    {
        proof {
            lemma_zero_target();
            lemma_auto_spec_u64_to_from_le_bytes();
        }
        let mut code = vec![opcode];
        let le = u64_to_le_bytes(0);
        append_bytes(&mut code, le.as_slice());
        let ghost i = if opcode == 7 {
            Instr::Jump(0)
        } else {
            Instr::PopJumpIfFalse(0)
        };
        assert(code@ =~= encode(i));
        self.emit_bytes(code.as_slice(), Ghost(i));
        let ghost mid = self@;
        self.pending = Ghost(self.pending@.insert((self.items.len() - JUMP_SIZE) as int));
        let h = self.items.len() - JUMP_SIZE;
        proof {
            let v = self@;
            let o = old(self)@;
            assert(v.bytes =~= o.bytes + seq![opcode] + spec_u64_to_le_bytes(0));
            assert(reaches(mid.bytes, 0, o.bytes.len() as int)) by {
                lemma_reaches_extend(o.bytes, encode(i), 0, o.bytes.len() as int);
            }
            assert forall|g: int| #[trigger] v.pending.contains(g) implies reaches(v.bytes, 0, g - 1) by {
                if g != h {
                    assert(mid.pending.contains(g));
                }
            }
            assert forall|t: int|
                #[trigger] reaches(v.bytes, 0, t) && 0 <= t < v.bytes.len() && v.bytes[t]
                    == 3 implies le_u32_at(v.bytes, t + 1) < v.constants.len() by {
                assert(reaches(mid.bytes, 0, t));
            }
            assert forall|g: int| #[trigger] v.pending.contains(g) implies is_placeholder(
                v.bytes,
                g,
            ) by {
                if g != h {
                    assert(o.pending.contains(g));
                    assert(is_placeholder(o.bytes, g));
                    assert forall|k: int| g <= k < g + 8 implies v.bytes[k] == 0 by {
                        assert(v.bytes[k] == o.bytes[k]);
                    }
                    assert(v.bytes[g - 1] == o.bytes[g - 1]);
                } else {
                    assert(v.bytes[g - 1] == opcode);
                    assert forall|k: int| g <= k < g + 8 implies v.bytes[k] == 0 by {
                        assert(v.bytes[k] == code@[k - o.bytes.len()]);
                    }
                }
            }
            assert forall|h1: int, h2: int|
                #[trigger] v.pending.contains(h1) && #[trigger] v.pending.contains(h2) && h1
                    < h2 implies h1 + 9 <= h2 by {
                if h2 == h {
                    assert(o.pending.contains(h1));
                    assert(is_placeholder(o.bytes, h1));
                } else if h1 == h {
                    assert(o.pending.contains(h2));
                    assert(is_placeholder(o.bytes, h2));
                } else {
                    assert(o.pending.contains(h1) && o.pending.contains(h2));
                }
            }
        }
        h
    }

    /// Appends `Jump` with a placeholder target; see `patch_jump`.
    pub fn emit_jump(&mut self) -> (h: usize)
        requires
            old(self)@.wf(),
        ensures
            h == old(self)@.bytes.len() + 1,
            final(self)@.bytes == old(self)@.bytes + encode(Instr::Jump(0)),
            final(self)@.constants == old(self)@.constants,
            final(self)@.pending == old(self)@.pending.insert(h as int),
            final(self)@.wf(),
    {
        let h = self.emit_placeholder(7);
        assert(seq![7u8] + spec_u64_to_le_bytes(0) =~= encode(Instr::Jump(0)));
        h
    }

    /// Appends `PopJumpIfFalse` with a placeholder target; see `patch_jump`.
    pub fn emit_pop_jump_if_false(&mut self) -> (h: usize)
        requires
            old(self)@.wf(),
        ensures
            h == old(self)@.bytes.len() + 1,
            final(self)@.bytes == old(self)@.bytes + encode(Instr::PopJumpIfFalse(0)),
            final(self)@.constants == old(self)@.constants,
            final(self)@.pending == old(self)@.pending.insert(h as int),
            final(self)@.wf(),
    {
        let h = self.emit_placeholder(8);
        assert(seq![8u8] + spec_u64_to_le_bytes(0) =~= encode(Instr::PopJumpIfFalse(0)));
        h
    }

    /// Points the pending jump at `h` to the current end of the program. A handle
    /// is patched once: afterwards it is no longer pending, so a second patch of it
    /// is refused.
    pub fn patch_jump(&mut self, h: usize)
        requires
            old(self)@.wf(),
            old(self)@.pending.contains(h as int),
        ensures
            final(self)@.bytes == patched(
                old(self)@.bytes,
                h as int,
                old(self)@.bytes.len() as u64,
            ),
            final(self)@.constants == old(self)@.constants,
            final(self)@.pending == old(self)@.pending.remove(h as int),
            final(self)@.wf(),
    {
        let n = self.items.len();
        let here = n as u64;
        let le = u64_to_le_bytes(here);
        let mut k: usize = 0;
        while k < JUMP_SIZE
            invariant
                old(self)@.wf(),
                old(self)@.pending.contains(h as int),
                is_placeholder(old(self)@.bytes, h as int),
                here == old(self)@.bytes.len(),
                n == old(self)@.bytes.len(),
                le@ == spec_u64_to_le_bytes(here),
                le@.len() == 8,
                k <= 8,
                self.items@.len() == old(self)@.bytes.len(),
                forall|j: int|
                    0 <= j < self.items@.len() ==> #[trigger] self.items@[j] == if h <= j < h + k {
                        le@[j - h]
                    } else {
                        old(self)@.bytes[j]
                    },
                self.constants == old(self).constants,
                self.pending == old(self).pending,
            decreases JUMP_SIZE - k,
        {
            self.items[h + k] = le[k];
            k = k + 1;
        }
        self.pending = Ghost(self.pending@.remove(h as int));
        proof {
            let v = self@;
            let o = old(self)@;
            assert(v.bytes =~= patched(o.bytes, h as int, here));
            assert forall|g: int| #[trigger] v.pending.contains(g) implies is_placeholder(
                v.bytes,
                g,
            ) by {
                assert(is_placeholder(o.bytes, g));
                assert(o.pending.contains(h as int) && o.pending.contains(g));
                assert forall|j: int| g <= j < g + 8 implies v.bytes[j] == 0 by {
                    assert(v.bytes[j] == o.bytes[j]);
                }
                assert(v.bytes[g - 1] == o.bytes[g - 1]);
            }
            let b = o.bytes;
            let c = v.bytes;
            let st = h - 1;
            assert(is_placeholder(b, h as int));
            assert(reaches(b, 0, st));
            assert forall|k: int| 0 <= k < b.len() && !(st < k < st + 9) implies b[k] == c[k] by {}
            assert forall|t: int| reaches(c, 0, t) == reaches(b, 0, t) by {
                lemma_patch_keeps_starts(b, c, st, 0, t);
            }
            assert(whole_instructions(c));
            assert forall|g: int| #[trigger] v.pending.contains(g) implies reaches(c, 0, g - 1) by {
                assert(o.pending.contains(g));
            }
            assert forall|t: int|
                #[trigger] reaches(c, 0, t) && 0 <= t < c.len() && c[t] == 3 implies le_u32_at(
                c,
                t + 1,
            ) < v.constants.len() by {
                assert(reaches(b, 0, t));
                lemma_start_fits(b, t);
                if t < st {
                    lemma_reaches_through(b, 0, t, st);
                } else if t > st {
                    lemma_reaches_through(b, 0, st, t);
                }
                assert(c[t] == b[t]);
                assert(c.subrange(t + 1, t + 5) =~= b.subrange(t + 1, t + 5));
            }
        }
    }

    /// The current end of the program, as a target for a later backward jump.
    pub fn emit_flag(&self) -> (r: usize)
        ensures
            r == self@.bytes.len(),
    {
        self.items.len()
    }

    /// Appends `Jump` to an already known target.
    pub fn jump_flag(&mut self, pos: usize)
        requires
            old(self)@.wf(),
        ensures
            final(self)@ == old(self)@.emitted(Instr::Jump(pos as u64)),
            final(self)@.wf(),
    {
        let mut code = vec![7u8];
        let le = u64_to_le_bytes(pos as u64);
        append_bytes(&mut code, le.as_slice());
        assert(code@ =~= encode(Instr::Jump(pos as u64)));
        self.emit_bytes(code.as_slice(), Ghost(Instr::Jump(pos as u64)));
    }

    /// Appends `PopJumpIfFalse` to an already known target.
    pub fn pop_jump_flag_if_false(&mut self, pos: usize)
        requires
            old(self)@.wf(),
        ensures
            final(self)@ == old(self)@.emitted(Instr::PopJumpIfFalse(pos as u64)),
            final(self)@.wf(),
    {
        let mut code = vec![8u8];
        let le = u64_to_le_bytes(pos as u64);
        append_bytes(&mut code, le.as_slice());
        assert(code@ =~= encode(Instr::PopJumpIfFalse(pos as u64)));
        self.emit_bytes(code.as_slice(), Ghost(Instr::PopJumpIfFalse(pos as u64)));
    }

    /// Index of the constant equal to `target` (same kind and same value; a float
    /// by its bit pattern), if there is one.
    pub fn find_const(&self, target: &Value<'a>) -> (r: Option<usize>)
        ensures
            r matches Some(i) ==> i < self@.constants.len() && self@.constants[i as int]
                == target@,
            r is None <==> !self@.constants.contains(target@),
    {
        let mut i: usize = 0;
        while i < self.constants.len()
            invariant
                i <= self.constants@.len(),
                self@.constants == self.constants@.map_values(|v: Value<'a>| v@),
                forall|k: int| 0 <= k < i ==> self@.constants[k] != target@,
            decreases self.constants@.len() - i,
        {
            if self.constants[i].eq(target) {
                assert(self@.constants[i as int] == target@);
                assert(self@.constants.contains(target@));
                return Some(i);
            }
            i = i + 1;
        }
        proof {
            if self@.constants.contains(target@) {
                let k = choose|k: int| 0 <= k < self@.constants.len() && self@.constants[k] == target@;
                assert(self@.constants[k] != target@);
            }
        }
        None
    }

    /// Index of `value` in the constant table, appending it only when no equal
    /// value is there yet.
    pub fn insert_const(&mut self, value: Value<'a>) -> (r: usize)
        requires
            old(self)@.wf(),
        ensures
            final(self)@.constants == inserted(old(self)@.constants, value@),
            r < final(self)@.constants.len(),
            final(self)@.constants[r as int] == value@,
            final(self)@.bytes == old(self)@.bytes,
            final(self)@.pending == old(self)@.pending,
            final(self)@.wf(),
    {
        match self.find_const(&value) {
            Some(i) => i,
            None => {
                let ghost v = value@;
                self.constants.push(value);
                proof {
                    assert(self@.constants =~= old(self)@.constants.push(v));
                    let c = self@.constants;
                    assert forall|i: int, j: int| 0 <= i < j < c.len() implies c[i] != c[j] by {
                        if j == c.len() - 1 {
                            assert(!old(self)@.constants.contains(v));
                            assert(old(self)@.constants[i] == c[i]);
                            if c[i] == v {
                                assert(old(self)@.constants.contains(v));
                            }
                        } else {
                            assert(old(self)@.constants[i] == c[i]);
                            assert(old(self)@.constants[j] == c[j]);
                        }
                    }
                    assert(self@.bytes == old(self)@.bytes);
                    assert(self@.pending == old(self)@.pending);
                    assert(distinct_values(self@.constants));
                }
                self.constants.len() - 1
            },
        }
    }

    /// The constant at `index`, if there is one.
    pub fn get_const(&self, index: usize) -> (r: Option<&Value<'a>>)
        ensures
            r matches Some(v) ==> index < self@.constants.len() && v@ == self@.constants[index as int],
            r is None <==> index >= self@.constants.len(),
    {
        if index < self.constants.len() {
            Some(&self.constants[index])
        } else {
            None
        }
    }

    /// Appends `LoadConst` of `value`, adding it to the constant table unless an
    /// equal value is there already, and returns its index.
    pub fn push_const(&mut self, value: Value<'a>) -> (r: usize)
        requires
            old(self)@.wf(),
            old(self)@.constants.len() <= u32::MAX,
        ensures
            final(self)@.constants == inserted(old(self)@.constants, value@),
            r < final(self)@.constants.len(),
            final(self)@.constants[r as int] == value@,
            final(self)@.bytes == old(self)@.bytes + encode(Instr::LoadConst(r as u32)),
            final(self)@.pending == old(self)@.pending,
            final(self)@.wf(),
    {
        let index = self.insert_const(value);
        let mut code = vec![3u8];
        let le = u32_to_le_bytes(index as u32);
        append_bytes(&mut code, le.as_slice());
        assert(code@ =~= encode(Instr::LoadConst(index as u32)));
        self.emit_bytes(code.as_slice(), Ghost(Instr::LoadConst(index as u32)));
        index
    }

    /// Lends this pool to `body`, which appends to it and hands it back.
    fn emit_with<F: FnOnce(Pool<'a>) -> Pool<'a>>(&mut self, body: F)
        requires
            old(self)@.wf(),
            emits_body(body),
        ensures
            appends(old(self)@, final(self)@),
            exists|p: Pool<'a>| p@ == old(self)@ && call_ensures(body, (p,), *final(self)),
    {
        let mut taken = Pool::new();
        std::mem::swap(self, &mut taken);
        let ghost given = taken;
        let mut back = body(taken);
        std::mem::swap(self, &mut back);
        assert(given@ == old(self)@ && call_ensures(body, (given,), *self));
    }

    /// Emits `body` into this pool behind a conditional jump: it runs only when
    /// the value on top of the stack, which the jump pops, is truthy.
    pub fn push_if<F: FnOnce(Pool<'a>) -> Pool<'a>>(&mut self, body: F)
        requires
            old(self)@.wf(),
            emits_body(body),
        ensures
            final(self)@.wf(),
            exists|p: Pool<'a>, q: Pool<'a>|
                {
                    &&& p@ == opened(old(self)@, Instr::PopJumpIfFalse(0))
                    &&& call_ensures(body, (p,), q)
                    &&& final(self)@ == patched_view(q@, old(self)@.bytes.len() + 1)
                    &&& final(self)@.bytes == if_code(
                        old(self)@.bytes,
                        tail_from(q@.bytes, old(self)@.bytes.len() + 9),
                    )
                },
    {
        proof {
            lemma_auto_spec_u64_to_from_le_bytes();
        }
        let jump = self.emit_pop_jump_if_false();
        let ghost mid = self@;
        self.emit_with(body);
        let ghost q = *self;
        self.patch_jump(jump);
        proof {
            let p = choose|p: Pool<'a>| p@ == mid && call_ensures(body, (p,), q);
            assert(mid =~= opened(old(self)@, Instr::PopJumpIfFalse(0)));
            assert(self@.bytes =~= if_code(
                old(self)@.bytes,
                tail_from(q@.bytes, old(self)@.bytes.len() + 9),
            ));
            assert(self@ == patched_view(q@, old(self)@.bytes.len() + 1));
        }
    }

    /// Emits `body` and `or_else` into this pool so that exactly one of them
    /// runs: `body` when the popped value is truthy, `or_else` when it is not.
    #[verifier::rlimit(60)]
    pub fn push_if_or_else<F1: FnOnce(Pool<'a>) -> Pool<'a>, F2: FnOnce(Pool<'a>) -> Pool<'a>>(
        &mut self,
        body: F1,
        or_else: F2,
    )
        requires
            old(self)@.wf(),
            emits_body(body),
            emits_body(or_else),
        ensures
            final(self)@.wf(),
            exists|p1: Pool<'a>, q1: Pool<'a>, p2: Pool<'a>, q2: Pool<'a>|
                {
                    &&& p1@ == opened(old(self)@, Instr::PopJumpIfFalse(0))
                    &&& call_ensures(body, (p1,), q1)
                    &&& p2@ == patched_view(
                        opened(q1@, Instr::Jump(0)),
                        old(self)@.bytes.len() + 1,
                    )
                    &&& call_ensures(or_else, (p2,), q2)
                    &&& final(self)@ == patched_view(q2@, q1@.bytes.len() + 1)
                    &&& final(self)@.bytes == if_else_code(
                        old(self)@.bytes,
                        tail_from(q1@.bytes, old(self)@.bytes.len() + 9),
                        tail_from(q2@.bytes, q1@.bytes.len() + 9),
                    )
                },
    {
        proof {
            lemma_auto_spec_u64_to_from_le_bytes();
        }
        let jump_if = self.emit_pop_jump_if_false();
        let ghost m1 = self@;
        self.emit_with(body);
        let ghost q1 = *self;
        let jump_else = self.emit_jump();
        let ghost b3 = self@.bytes;
        self.patch_jump(jump_if);
        let ghost m2 = self@;
        self.emit_with(or_else);
        let ghost q2 = *self;
        self.patch_jump(jump_else);
        proof {
            let l = old(self)@.bytes.len();
            let b1 = tail_from(q1@.bytes, l + 9);
            let b2 = tail_from(q2@.bytes, q1@.bytes.len() + 9);
            let else_start = l + 9 + b1.len() + 9;
            assert(q1@.bytes =~= m1.bytes + b1);
            assert(b3 =~= q1@.bytes + encode(Instr::Jump(0)));
            assert(m2.bytes =~= old(self)@.bytes + encode(Instr::PopJumpIfFalse(else_start as u64))
                + b1 + encode(Instr::Jump(0)));
            assert(q2@.bytes =~= m2.bytes + b2);
            let p1 = choose|p: Pool<'a>| p@ == m1 && call_ensures(body, (p,), q1);
            let p2 = choose|p: Pool<'a>| p@ == m2 && call_ensures(or_else, (p,), q2);
            assert(m1 =~= opened(old(self)@, Instr::PopJumpIfFalse(0)));
            assert(m2 =~= patched_view(opened(q1@, Instr::Jump(0)), old(self)@.bytes.len() + 1));
            assert(self@.bytes =~= if_else_code(
                old(self)@.bytes,
                tail_from(q1@.bytes, old(self)@.bytes.len() + 9),
                tail_from(q2@.bytes, q1@.bytes.len() + 9),
            ));
            assert(self@ == patched_view(q2@, q1@.bytes.len() + 1));
        }
    }

    /// Emits `body` into this pool followed by a jump back to its start.
    /// Nothing here leaves the loop: `body` must jump out itself.
    pub fn push_loop<F: FnOnce(Pool<'a>) -> Pool<'a>>(&mut self, body: F)
        requires
            old(self)@.wf(),
            emits_body(body),
        ensures
            final(self)@.wf(),
            exists|p: Pool<'a>, q: Pool<'a>|
                {
                    &&& p@ == old(self)@
                    &&& call_ensures(body, (p,), q)
                    &&& final(self)@ == q@.emitted(Instr::Jump(old(self)@.bytes.len() as u64))
                    &&& final(self)@.bytes == loop_code(
                        old(self)@.bytes,
                        tail_from(q@.bytes, old(self)@.bytes.len()),
                    )
                },
    {
        let start = self.emit_flag();
        self.emit_with(body);
        let ghost q = *self;
        self.jump_flag(start);
        proof {
            let p = choose|p: Pool<'a>| p@ == old(self)@ && call_ensures(body, (p,), q);
            assert(self@.bytes =~= loop_code(
                old(self)@.bytes,
                tail_from(q@.bytes, old(self)@.bytes.len()),
            ));
        }
    }

    /// Emits a while loop into this pool: `condition` runs before every round,
    /// including the first, and leaves one value; the loop ends as soon as that
    /// value is falsy.
    pub fn push_while_loop<F1: FnOnce(Pool<'a>) -> Pool<'a>, F2: FnOnce(Pool<'a>) -> Pool<'a>>(
        &mut self,
        condition: F1,
        body: F2,
    )
        requires
            old(self)@.wf(),
            emits_body(condition),
            emits_body(body),
        ensures
            final(self)@.wf(),
            exists|p1: Pool<'a>, q1: Pool<'a>, p2: Pool<'a>, q2: Pool<'a>|
                {
                    &&& p1@ == old(self)@
                    &&& call_ensures(condition, (p1,), q1)
                    &&& p2@ == opened(q1@, Instr::PopJumpIfFalse(0))
                    &&& call_ensures(body, (p2,), q2)
                    &&& final(self)@ == patched_view(
                        q2@.emitted(Instr::Jump(old(self)@.bytes.len() as u64)),
                        q1@.bytes.len() + 1,
                    )
                    &&& final(self)@.bytes == while_code(
                        old(self)@.bytes,
                        tail_from(q1@.bytes, old(self)@.bytes.len()),
                        tail_from(q2@.bytes, q1@.bytes.len() + 9),
                    )
                },
    {
        proof {
            lemma_auto_spec_u64_to_from_le_bytes();
        }
        let start = self.emit_flag();
        self.emit_with(condition);
        let ghost q1 = *self;
        let jump = self.emit_pop_jump_if_false();
        let ghost m2 = self@;
        self.emit_with(body);
        let ghost q2 = *self;
        self.jump_flag(start);
        let ghost b5 = self@.bytes;
        self.patch_jump(jump);
        proof {
            let l = old(self)@.bytes.len();
            let c = tail_from(q1@.bytes, l);
            let b = tail_from(q2@.bytes, q1@.bytes.len() + 9);
            assert(q1@.bytes =~= old(self)@.bytes + c);
            assert(q2@.bytes =~= m2.bytes + b);
            assert(b5 =~= old(self)@.bytes + c + encode(Instr::PopJumpIfFalse(0)) + b + encode(
                Instr::Jump(l as u64),
            ));
            let p1 = choose|p: Pool<'a>| p@ == old(self)@ && call_ensures(condition, (p,), q1);
            let p2 = choose|p: Pool<'a>| p@ == m2 && call_ensures(body, (p,), q2);
            assert(m2 =~= opened(q1@, Instr::PopJumpIfFalse(0)));
            assert(self@.bytes =~= while_code(
                old(self)@.bytes,
                tail_from(q1@.bytes, old(self)@.bytes.len()),
                tail_from(q2@.bytes, q1@.bytes.len() + 9),
            ));
        }
    }

    /// The finished program's bytes: every placeholder jump has been patched.
    pub fn as_bytes(&self) -> (r: &[u8])
        requires
            self@.pending.is_empty(),
        ensures
            r@ == self@.bytes,
    {
        self.items.as_slice()
    }

    /// The constant table.
    pub fn constants(&self) -> (r: &[Value<'a>])
        ensures
            r@.map_values(|v: Value<'a>| v@) == self@.constants,
    {
        self.constants.as_slice()
    }

    /// Length of the program in bytes.
    pub fn len(&self) -> (r: usize)
        ensures
            r == self@.bytes.len(),
    {
        self.items.len()
    }

    pub fn push_binop(&mut self, binop: BinOp)
        requires
            old(self)@.wf(),
        ensures
            final(self)@ == old(self)@.emitted(Instr::BinOp(binop)),
            final(self)@.wf(),
    {
        let code = [2u8, binop.tag()];
        self.emit_bytes(&code, Ghost(Instr::BinOp(binop)));
    }
}

} // verus!
