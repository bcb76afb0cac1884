//! Positions in source text.

use vstd::prelude::*;

verus! {

/// A stretch of source text, in byte offsets.
#[derive(Copy, Clone, Debug, PartialEq, Eq, Hash, Structural)]
pub enum Span {
    /// From `start` up to, not including, `end`.
    Real { start: u32, end: u32 },
    /// The end of the input.
    EOF,
}

impl Span {
    /// The stretch from `start` up to `end`.
    pub fn from(start: u32, end: u32) -> (r: Span)
        ensures
            r == (Span::Real { start, end }),
    {
        Span::Real { start, end }
    }

    /// The one-byte stretch at `pos`, or the empty stretch there if no
    /// byte can follow.
    pub fn from_pos(pos: u32) -> (r: Span)
        ensures
            r == Self::spec_from_pos(pos),
    {
        if pos < u32::MAX {
            Span::Real { start: pos, end: pos + 1 }
        } else {
            Span::Real { start: pos, end: pos }
        }
    }

    pub open spec fn spec_from_pos(pos: u32) -> Span {
        if pos < u32::MAX {
            Span::Real { start: pos, end: (pos + 1) as u32 }
        } else {
            Span::Real { start: pos, end: pos }
        }
    }

    pub open spec fn spec_to(self, to: Span) -> Span {
        match (self, to) {
            (Span::Real { start, .. }, Span::Real { end, .. }) => Span::Real { start, end },
            _ => Span::EOF,
        }
    }

    /// The stretch from the start of `self` to the end of `to`. With the
    /// end of the input on either side, the end of the input.
    #[verifier::when_used_as_spec(spec_to)]
    pub fn to(self, to: Span) -> (r: Span)
        ensures
            r == self.spec_to(to),
    {
        match (self, to) {
            (Span::Real { start, .. }, Span::Real { end, .. }) => Span::Real { start, end },
            _ => Span::EOF,
        }
    }
}

/// A value together with the stretch of source it was read from.
#[derive(Copy, Clone, Debug, PartialEq, Eq, Hash, Structural)]
pub struct Spanned<T> {
    pub node: T,
    pub span: Span,
}

impl<T> Spanned<T> {
    /// `node`, read from `span`.
    pub fn wrap_span(node: T, span: Span) -> (r: Spanned<T>)
        ensures
            r.node == node,
            r.span == span,
    {
        Spanned { node, span }
    }

    /// `node`, read from the stretch from `start` up to `end`.
    pub fn from(node: T, start: u32, end: u32) -> (r: Spanned<T>)
        ensures
            r.node == node,
            r.span == (Span::Real { start, end }),
    {
        Spanned { node, span: Span::Real { start, end } }
    }
}

} // verus!
