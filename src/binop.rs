use vstd::prelude::*;

verus! {

/// The binary operators an instruction can name, in tag order.
#[derive(Debug, Clone, Copy, PartialEq, Eq, Structural)]
pub enum BinOp {
    Add,
    Sub,
    Mul,
    Div,
    Mod,
    LE,
    LT,
    GE,
    GT,
    Eq,
    Ne,
}

/// Number of operator tags; every tag byte at or above it is malformed.
pub const BINOP_COUNT: u8 = 11;

impl BinOp {
    /// The byte that stands for this operator in an instruction operand.
    pub open spec fn spec_tag(self) -> u8 {
        match self {
            BinOp::Add => 0,
            BinOp::Sub => 1,
            BinOp::Mul => 2,
            BinOp::Div => 3,
            BinOp::Mod => 4,
            BinOp::LE => 5,
            BinOp::LT => 6,
            BinOp::GE => 7,
            BinOp::GT => 8,
            BinOp::Eq => 9,
            BinOp::Ne => 10,
        }
    }

    /// The operator a tag byte stands for, if any.
    pub open spec fn spec_from_tag(tag: u8) -> Option<BinOp> {
        if tag == 0 {
            Some(BinOp::Add)
        } else if tag == 1 {
            Some(BinOp::Sub)
        } else if tag == 2 {
            Some(BinOp::Mul)
        } else if tag == 3 {
            Some(BinOp::Div)
        } else if tag == 4 {
            Some(BinOp::Mod)
        } else if tag == 5 {
            Some(BinOp::LE)
        } else if tag == 6 {
            Some(BinOp::LT)
        } else if tag == 7 {
            Some(BinOp::GE)
        } else if tag == 8 {
            Some(BinOp::GT)
        } else if tag == 9 {
            Some(BinOp::Eq)
        } else if tag == 10 {
            Some(BinOp::Ne)
        } else {
            None
        }
    }

    pub fn tag(self) -> (r: u8)
        ensures
            r == self.spec_tag(),
            r < BINOP_COUNT,
    {
        match self {
            BinOp::Add => 0,
            BinOp::Sub => 1,
            BinOp::Mul => 2,
            BinOp::Div => 3,
            BinOp::Mod => 4,
            BinOp::LE => 5,
            BinOp::LT => 6,
            BinOp::GE => 7,
            BinOp::GT => 8,
            BinOp::Eq => 9,
            BinOp::Ne => 10,
        }
    }

    /// Checked mapping from a tag byte to an operator: `None` for every byte at or
    /// above `BINOP_COUNT`.
    pub fn from_tag(tag: u8) -> (r: Option<BinOp>)
        ensures
            r == Self::spec_from_tag(tag),
            r.is_none() <==> tag >= BINOP_COUNT,
    {
        if tag == 0 {
            Some(BinOp::Add)
        } else if tag == 1 {
            Some(BinOp::Sub)
        } else if tag == 2 {
            Some(BinOp::Mul)
        } else if tag == 3 {
            Some(BinOp::Div)
        } else if tag == 4 {
            Some(BinOp::Mod)
        } else if tag == 5 {
            Some(BinOp::LE)
        } else if tag == 6 {
            Some(BinOp::LT)
        } else if tag == 7 {
            Some(BinOp::GE)
        } else if tag == 8 {
            Some(BinOp::GT)
        } else if tag == 9 {
            Some(BinOp::Eq)
        } else if tag == 10 {
            Some(BinOp::Ne)
        } else {
            None
        }
    }
}

} // verus!
