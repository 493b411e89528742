//! The parts of Coxeter diagrams that are plain integers: edge values, node
//! references and the errors of diagram parsing.

use vstd::prelude::*;

verus! {

/// An error met while reading a Coxeter diagram.
#[derive(Clone, Copy, Debug, PartialEq, Eq, Structural)]
pub enum CdError {
    /// A parenthesis was opened but not closed.
    MismatchedParenthesis {
        /// Where the reader found the error.
        pos: usize,
    },
    /// The diagram ended unexpectedly.
    UnexpectedEnding {
        /// Where the reader found the error.
        pos: usize,
    },
    /// A number could not be read.
    ParseError {
        /// Where the reader found the error.
        pos: usize,
    },
    /// An invalid symbol was found.
    InvalidSymbol {
        /// Where the reader found the error.
        pos: usize,
    },
    /// An invalid edge value was found.
    InvalidEdge {
        /// The numerator of the edge.
        num: u32,
        /// The denominator of the edge.
        den: u32,
        /// Where the reader found the error.
        pos: usize,
    },
    /// An edge was given twice.
    RepeatEdge {
        /// The first node of the edge.
        a: usize,
        /// The second node of the edge.
        b: usize,
    },
}

/// The value of an edge of a Coxeter diagram, the fraction `num / den`: the
/// mirrors it joins meet at an angle of pi times `den / num`.
#[derive(Clone, Copy, Debug, PartialEq, Eq, Structural)]
pub struct Edge {
    /// The numerator.
    num: u32,
    /// The denominator.
    den: u32,
}

impl Edge {
    /// The numerator.
    pub closed spec fn numerator(self) -> u32 {
        self.num
    }

    /// The denominator.
    pub closed spec fn denominator(self) -> u32 {
        self.den
    }

    /// A valid edge value: greater than one, with a nonzero denominator below
    /// the numerator.
    pub open spec fn valid(num: u32, den: u32) -> bool {
        num > 1 && den != 0 && den < num
    }

    /// The edge `num / den`, or an `InvalidEdge` error at `pos` where the
    /// value is not valid.
    pub fn rational(num: u32, den: u32, pos: usize) -> (r: Result<Edge, CdError>)
        ensures
            Edge::valid(num, den) <==> r is Ok,
            r matches Ok(e) ==> e.numerator() == num && e.denominator() == den,
            r matches Err(e) ==> e == (CdError::InvalidEdge { num, den, pos }),
    {
        if num > 1 && den != 0 && den < num {
            Ok(Edge { num, den })
        } else {
            Err(CdError::InvalidEdge { num, den, pos })
        }
    }

    /// The edge with integer value `num`, or an `InvalidEdge` error at `pos`.
    pub fn integer(num: u32, pos: usize) -> (r: Result<Edge, CdError>)
        ensures
            Edge::valid(num, 1) <==> r is Ok,
            r matches Ok(e) ==> e.numerator() == num && e.denominator() == 1,
            r matches Err(e) ==> e == (CdError::InvalidEdge { num, den: 1, pos }),
    {
        Edge::rational(num, 1, pos)
    }

    /// Whether the edge value equals two.
    pub fn eq_two(&self) -> (r: bool)
        ensures
            r <==> self.numerator() == 2 * self.denominator(),
    {
        self.num as u64 == 2 * (self.den as u64)
    }
}

/// The position of a node: its index, or its offset from the last node.
#[derive(Clone, Copy, Debug, PartialEq, Eq, Structural)]
pub enum NodeRef {
    /// The index of the node.
    Absolute(usize),
    /// The offset of the node from the last one.
    Negative(usize),
}

impl NodeRef {
    /// A reference counted from the end when `neg` holds, from the start
    /// otherwise.
    pub fn new(neg: bool, idx: usize) -> (r: NodeRef)
        ensures
            neg ==> r == NodeRef::Negative(idx),
            !neg ==> r == NodeRef::Absolute(idx),
    {
        if neg {
            NodeRef::Negative(idx)
        } else {
            NodeRef::Absolute(idx)
        }
    }

    /// The index of the node among `len` nodes; an offset must not reach past
    /// the first node.
    pub fn index(&self, len: usize) -> (r: usize)
        requires
            self matches NodeRef::Negative(idx) ==> idx < len,
        ensures
            match *self {
                NodeRef::Absolute(idx) => r == idx,
                NodeRef::Negative(idx) => r == len - 1 - idx,
            },
    {
        match self {
            NodeRef::Absolute(idx) => *idx,
            NodeRef::Negative(idx) => len - 1 - *idx,
        }
    }
}

/// The references to both ends of an edge, with its value.
#[derive(Clone, Copy, Debug, PartialEq, Eq, Structural)]
pub struct EdgeRef {
    /// The first end.
    pub first: NodeRef,
    /// The other end.
    pub other: NodeRef,
    /// The edge value.
    pub edge: Edge,
}

impl EdgeRef {
    /// An edge reference from its parts.
    pub fn new(first: NodeRef, other: NodeRef, edge: Edge) -> (r: EdgeRef)
        ensures
            r == (EdgeRef { first, other, edge }),
    {
        EdgeRef { first, other, edge }
    }

    /// The indices of both ends among `len` nodes.
    pub fn indices(&self, len: usize) -> (r: [usize; 2])
        requires
            self.first matches NodeRef::Negative(idx) ==> idx < len,
            self.other matches NodeRef::Negative(idx) ==> idx < len,
        ensures
            r@[0] == (match self.first {
                NodeRef::Absolute(idx) => idx as int,
                NodeRef::Negative(idx) => len - 1 - idx,
            }),
            r@[1] == (match self.other {
                NodeRef::Absolute(idx) => idx as int,
                NodeRef::Negative(idx) => len - 1 - idx,
            }),
    {
        [self.first.index(len), self.other.index(len)]
    }
}

} // verus!
