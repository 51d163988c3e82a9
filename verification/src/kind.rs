//! The kind of a native function and its one-byte tag.

use vstd::prelude::*;
use crate::error::InvalidTag;

verus! {

/// How a native function is called from script code.
#[derive(Debug, Clone, Copy, PartialEq, Eq, Structural)]
pub enum FunctionType {
    Function,
    Operator,
    PreOperator,
    PostOperator,
}

impl FunctionType {
    /// The tag that stands for this kind in a file: 1, 2, 3 or 4.
    pub open spec fn tag(self) -> u8 {
        match self {
            FunctionType::Function => 1,
            FunctionType::Operator => 2,
            FunctionType::PreOperator => 3,
            FunctionType::PostOperator => 4,
        }
    }

    /// The kind that a tag stands for, if it stands for one.
    pub open spec fn of_tag(n: u8) -> Option<FunctionType> {
        if n == 1 {
            Some(FunctionType::Function)
        } else if n == 2 {
            Some(FunctionType::Operator)
        } else if n == 3 {
            Some(FunctionType::PreOperator)
        } else if n == 4 {
            Some(FunctionType::PostOperator)
        } else {
            None
        }
    }

    /// Reads a tag. Every byte but 1, 2, 3 and 4 is rejected, and the error
    /// carries the byte.
    pub fn from(n: u8) -> (r: Result<FunctionType, InvalidTag>)
        ensures
            1 <= n <= 4 <==> r is Ok,
            r matches Ok(k) ==> Self::of_tag(n) == Some(k) && k.tag() == n,
            r matches Err(e) ==> Self::of_tag(n) is None && e.tag == n,
    {
        match n {
            1 => Ok(FunctionType::Function),
            2 => Ok(FunctionType::Operator),
            3 => Ok(FunctionType::PreOperator),
            4 => Ok(FunctionType::PostOperator),
            _ => Err(InvalidTag { tag: n }),
        }
    }

    /// The tag of this kind.
    pub fn to_u8(&self) -> (n: u8)
        ensures
            n == self.tag(),
            1 <= n <= 4,
            Self::of_tag(n) == Some(*self),
    {
        match self {
            FunctionType::Function => 1,
            FunctionType::Operator => 2,
            FunctionType::PreOperator => 3,
            FunctionType::PostOperator => 4,
        }
    }
}

/// A tag and the kind it stands for determine each other: reading the tag of a
/// kind gives the kind back, and a tag that is read gives a kind with that tag.
pub proof fn lemma_tag_round_trip(k: FunctionType, n: u8)
    ensures
        FunctionType::of_tag(k.tag()) == Some(k),
        1 <= k.tag() <= 4,
        FunctionType::of_tag(n) is Some <==> 1 <= n <= 4,
        FunctionType::of_tag(n) matches Some(j) ==> j.tag() == n,
{
}

} // verus!
