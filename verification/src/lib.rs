//! Z-order indexed two- and three-dimensional arrays.
//!
//! Cells are stored in blocks of eight per axis, and inside a block in Morton
//! order, so that cells that are close in space are close in memory.

use vstd::prelude::*;
use vstd::string::StringExecFns;

pub mod extent;
pub mod grid2d;
pub mod grid3d;
mod init;
pub mod interleave;
pub mod layout2d;
pub mod layout3d;
pub mod z2d;
pub mod z3d;

verus! {

/// The error of an access outside an array: the coordinate that was asked for, and
/// the size of the array, one entry per axis.
#[derive(Debug)]
pub struct LookUpError {
    coord: Vec<usize>,
    bounds: Vec<usize>,
}

impl LookUpError {
    /// The coordinate that was out of bounds.
    pub closed spec fn spec_coord(&self) -> Seq<usize> {
        self.coord@
    }

    /// The bounds that were violated.
    pub closed spec fn spec_bounds(&self) -> Seq<usize> {
        self.bounds@
    }

    /// An error for the access at `coord` to an array of size `bounds`.
    pub fn new(coord: Vec<usize>, bounds: Vec<usize>) -> (e: LookUpError)
        ensures
            e.spec_coord() == coord@,
            e.spec_bounds() == bounds@,
    {
        LookUpError { coord, bounds }
    }

    /// The coordinate that was out of bounds.
    pub fn coord(&self) -> (r: &Vec<usize>)
        ensures
            r@ == self.spec_coord(),
    {
        &self.coord
    }

    /// The bounds that were violated.
    pub fn bounds(&self) -> (r: &Vec<usize>)
        ensures
            r@ == self.spec_bounds(),
    {
        &self.bounds
    }

    /// The message for the user: which coordinate could not be accessed, and the
    /// size that it is out of range for.
    pub fn to_string(&self) -> (r: String)
        ensures
            r@ == "Error: could not access coordinate "@ + tuple_text(self.spec_coord())
                + " because it is out of range for size "@ + tuple_text(self.spec_bounds()),
    {
        let mut sb = String::from_str("Error: could not access coordinate ");
        let coord = vec_to_string(&self.coord);
        sb.append(coord.as_str());
        sb.append(" because it is out of range for size ");
        let bounds = vec_to_string(&self.bounds);
        sb.append(bounds.as_str());
        sb
    }
}

/// The text of one decimal digit.
pub open spec fn digit_text(d: nat) -> Seq<char>
    recommends
        d < 10,
{
    if d == 0 {
        "0"@
    } else if d == 1 {
        "1"@
    } else if d == 2 {
        "2"@
    } else if d == 3 {
        "3"@
    } else if d == 4 {
        "4"@
    } else if d == 5 {
        "5"@
    } else if d == 6 {
        "6"@
    } else if d == 7 {
        "7"@
    } else if d == 8 {
        "8"@
    } else {
        "9"@
    }
}

/// The decimal text of a number, without leading zeros.
pub open spec fn decimal_text(n: nat) -> Seq<char>
    decreases n,
{
    if n < 10 {
        digit_text(n)
    } else {
        decimal_text(n / 10) + digit_text(n % 10)
    }
}

/// The decimal texts of the numbers of `v`, with `", "` between them.
pub open spec fn list_text(v: Seq<usize>) -> Seq<char>
    decreases v.len(),
{
    if v.len() == 0 {
        Seq::empty()
    } else if v.len() == 1 {
        decimal_text(v[0] as nat)
    } else {
        list_text(v.drop_last()) + ", "@ + decimal_text(v.last() as nat)
    }
}

/// The numbers of `v` as a tuple is written: in round brackets, with `", "`
/// between them.
pub open spec fn tuple_text(v: Seq<usize>) -> Seq<char> {
    "("@ + list_text(v) + ")"@
}

/// The text of one decimal digit.
fn digit_str(d: usize) -> (r: &'static str)
    requires
        d < 10,
    ensures
        r@ == digit_text(d as nat),
{
    if d == 0 {
        "0"
    } else if d == 1 {
        "1"
    } else if d == 2 {
        "2"
    } else if d == 3 {
        "3"
    } else if d == 4 {
        "4"
    } else if d == 5 {
        "5"
    } else if d == 6 {
        "6"
    } else if d == 7 {
        "7"
    } else if d == 8 {
        "8"
    } else {
        "9"
    }
}

/// The decimal text of a number.
fn decimal_string(n: usize) -> (r: String)
    ensures
        r@ == decimal_text(n as nat),
    decreases n,
{
    if n < 10 {
        String::from_str(digit_str(n))
    } else {
        let mut s = decimal_string(n / 10);
        s.append(digit_str(n % 10));
        s
    }
}

/// The numbers of `v` as a tuple is written, for messages.
fn vec_to_string(v: &Vec<usize>) -> (r: String)
    ensures
        r@ == tuple_text(v@),
{
    let mut sb = String::from_str("(");
    let mut i: usize = 0;
    while i < v.len()
        invariant
            i <= v.len(),
            sb@ == "("@ + list_text(v@.take(i as int)),
        decreases v.len() - i,
    {
        if i > 0 {
            sb.append(", ");
        }
        let text = decimal_string(v[i]);
        sb.append(text.as_str());
        proof {
            assert(v@.take(i + 1).drop_last() =~= v@.take(i as int));
            assert(v@.take(i + 1).last() == v@[i as int]);
            if i == 0 {
                assert(list_text(v@.take(0)) =~= Seq::<char>::empty());
                assert(sb@ =~= "("@ + list_text(v@.take(1)));
            } else {
                assert(sb@ =~= "("@ + list_text(v@.take(i + 1)));
            }
        }
        i += 1;
    }
    assert(v@.take(v.len() as int) =~= v@);
    sb.append(")");
    sb
}

} // verus!
