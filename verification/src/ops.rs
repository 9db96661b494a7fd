//! Operations on a canvas and their textual serialization.

use vstd::prelude::*;
use vstd::string::StringExecFns;
use crate::color::Color;
use crate::geometry::Point;

verus! {

/// A block identifier: the dot-separated path of the cuts that created the
/// block, starting from the root identifier.
pub type BlockId = String;

/// One atomic edit of a canvas.
#[derive(Debug, Clone)]
pub enum Operation {
    /// Recolor the block to a single color.
    Color { id: BlockId, color: Color },
    /// Cut the block at an interior point into four quadrants.
    PCut { id: BlockId, point: Point },
    /// Cut the block at an interior x coordinate into two halves.
    XCut { id: BlockId, x: i32 },
    /// Cut the block at an interior y coordinate into two halves.
    YCut { id: BlockId, y: i32 },
    /// Exchange the shapes of two equally sized blocks.
    Swap { id1: BlockId, id2: BlockId },
    /// Merge two adjacent blocks; the mutation is not supported.
    Merge { id1: BlockId, id2: BlockId },
}

/// The character of one decimal digit.
pub open spec fn digit_char(d: int) -> char {
    if d == 0 {
        '0'
    } else if d == 1 {
        '1'
    } else if d == 2 {
        '2'
    } else if d == 3 {
        '3'
    } else if d == 4 {
        '4'
    } else if d == 5 {
        '5'
    } else if d == 6 {
        '6'
    } else if d == 7 {
        '7'
    } else if d == 8 {
        '8'
    } else {
        '9'
    }
}

/// The decimal digits of a natural number, most significant first.
pub open spec fn dec_nat(n: nat) -> Seq<char>
    decreases n,
{
    if n < 10 {
        seq![digit_char(n as int)]
    } else {
        dec_nat(n / 10).push(digit_char((n % 10) as int))
    }
}

/// The decimal form of an integer: a minus sign before the digits of the
/// magnitude when the integer is negative.
pub open spec fn dec_int(x: int) -> Seq<char> {
    if x < 0 {
        seq!['-'] + dec_nat((-x) as nat)
    } else {
        dec_nat(x as nat)
    }
}

/// The serialized form of an operation, in the fixed textual grammar.
pub open spec fn spec_serialize(op: Operation) -> Seq<char> {
    match op {
        Operation::Color { id, color } => "color ["@ + id@ + "] ["@ + dec_nat(color.r as nat)
            + ", "@ + dec_nat(color.g as nat) + ", "@ + dec_nat(color.b as nat) + ", "@ + dec_nat(
            color.a as nat,
        ) + "]"@,
        Operation::PCut { id, point } => "cut ["@ + id@ + "] ["@ + dec_int(point.x as int) + ", "@
            + dec_int(point.y as int) + "]"@,
        Operation::XCut { id, x } => "cut ["@ + id@ + "] [X] ["@ + dec_int(x as int) + "]"@,
        Operation::YCut { id, y } => "cut ["@ + id@ + "] [Y] ["@ + dec_int(y as int) + "]"@,
        Operation::Swap { id1, id2 } => "swap ["@ + id1@ + "] ["@ + id2@ + "]"@,
        Operation::Merge { id1, id2 } => "merge ["@ + id1@ + "] ["@ + id2@ + "]"@,
    }
}

/// The string slice of one decimal digit.
pub(crate) fn digit_str(d: u8) -> (s: &'static str)
    requires
        d < 10,
    ensures
        s@ == seq![digit_char(d as int)],
{
    proof {
        reveal_strlit("0");
        reveal_strlit("1");
        reveal_strlit("2");
        reveal_strlit("3");
        reveal_strlit("4");
        reveal_strlit("5");
        reveal_strlit("6");
        reveal_strlit("7");
        reveal_strlit("8");
        reveal_strlit("9");
    }
    match d {
        0 => "0",
        1 => "1",
        2 => "2",
        3 => "3",
        4 => "4",
        5 => "5",
        6 => "6",
        7 => "7",
        8 => "8",
        _ => "9",
    }
}

/// The digits of the reversed digit stack, most significant first.
spec fn stack_chars(ds: Seq<u8>) -> Seq<char> {
    Seq::new(ds.len(), |i: int| digit_char(ds[ds.len() - 1 - i] as int))
}

/// Append the decimal form of a natural number to the string.
fn push_dec_u64(s: &mut String, n: u64)
    ensures
        final(s)@ == old(s)@ + dec_nat(n as nat),
{
    let mut ds: Vec<u8> = Vec::new();
    let mut m: u64 = n;
    while m >= 10
        invariant
            dec_nat(n as nat) == dec_nat(m as nat) + stack_chars(ds@),
            forall|j: int| 0 <= j < ds@.len() ==> ds@[j] < 10,
        decreases m,
    {
        let d: u8 = (m % 10) as u8;
        ds.push(d);
        proof {
            assert(stack_chars(ds@) =~= seq![digit_char(d as int)] + stack_chars(
                ds@.drop_last(),
            ));
            assert(dec_nat(m as nat) + stack_chars(ds@.drop_last()) =~= dec_nat(
                (m as nat) / 10,
            ) + stack_chars(ds@));
        }
        m = m / 10;
    }
    let d: u8 = m as u8;
    ds.push(d);
    proof {
        assert(stack_chars(ds@) =~= seq![digit_char(d as int)] + stack_chars(ds@.drop_last()));
        assert(dec_nat(n as nat) =~= stack_chars(ds@));
    }
    let mut i: usize = ds.len();
    while i > 0
        invariant
            i <= ds@.len(),
            s@ == old(s)@ + stack_chars(ds@).take(ds@.len() - i),
            forall|j: int| 0 <= j < ds@.len() ==> ds@[j] < 10,
        decreases i,
    {
        i = i - 1;
        let d: u8 = ds[i];
        s.append(digit_str(d));
        proof {
            assert(s@ =~= old(s)@ + stack_chars(ds@).take(ds@.len() - i));
        }
    }
    proof {
        assert(s@ =~= old(s)@ + dec_nat(n as nat));
    }
}

/// Append the decimal form of a signed coordinate to the string.
fn push_dec_i32(s: &mut String, x: i32)
    ensures
        final(s)@ == old(s)@ + dec_int(x as int),
{
    if x < 0 {
        proof {
            reveal_strlit("-");
        }
        s.append("-");
        let m: u64 = (-(x as i64)) as u64;
        push_dec_u64(s, m);
        proof {
            assert(s@ =~= old(s)@ + dec_int(x as int));
        }
    } else {
        push_dec_u64(s, x as u64);
    }
}

impl Operation {
    /// The serialized form of the operation, in the fixed textual grammar.
    pub fn serialize(&self) -> (out: String)
        ensures
            out@ == spec_serialize(*self),
    {
        let mut s = String::new();
        match self {
            Operation::Color { id, color } => {
                s.append("color [");
                s.append(id.as_str());
                s.append("] [");
                push_dec_u64(&mut s, color.r as u64);
                s.append(", ");
                push_dec_u64(&mut s, color.g as u64);
                s.append(", ");
                push_dec_u64(&mut s, color.b as u64);
                s.append(", ");
                push_dec_u64(&mut s, color.a as u64);
                s.append("]");
            },
            Operation::PCut { id, point } => {
                s.append("cut [");
                s.append(id.as_str());
                s.append("] [");
                push_dec_i32(&mut s, point.x);
                s.append(", ");
                push_dec_i32(&mut s, point.y);
                s.append("]");
            },
            Operation::XCut { id, x } => {
                s.append("cut [");
                s.append(id.as_str());
                s.append("] [X] [");
                push_dec_i32(&mut s, *x);
                s.append("]");
            },
            Operation::YCut { id, y } => {
                s.append("cut [");
                s.append(id.as_str());
                s.append("] [Y] [");
                push_dec_i32(&mut s, *y);
                s.append("]");
            },
            Operation::Swap { id1, id2 } => {
                s.append("swap [");
                s.append(id1.as_str());
                s.append("] [");
                s.append(id2.as_str());
                s.append("]");
            },
            Operation::Merge { id1, id2 } => {
                s.append("merge [");
                s.append(id1.as_str());
                s.append("] [");
                s.append(id2.as_str());
                s.append("]");
            },
        }
        proof {
            assert(s@ =~= spec_serialize(*self));
        }
        s
    }
}

} // verus!
