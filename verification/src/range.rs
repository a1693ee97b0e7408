//! Ranges: an inclusive pair of single ASCII characters, written as a node
//! with the two endpoints as its first children, and the characters it spans.

use crate::error::{Failure, ParseError, RangeFault};
use crate::syntax::{Node, Tree};
use vstd::prelude::*;
use vstd::string::StrSliceExecFns;

verus! {

/// Whether `c` is an ASCII character.
pub open spec fn ascii(c: char) -> bool {
    (c as int) < 128
}

/// The character that an endpoint's text consists of, if it is exactly one.
pub open spec fn endpoint(text: Seq<char>) -> Option<char> {
    if text.len() == 1 {
        Some(text[0])
    } else {
        None
    }
}

/// The endpoints of a range node, or what is wrong with them. The first two
/// children give the endpoints. In this order: both must be there and be
/// one character long, both must be ASCII, and the lower must lie strictly
/// below the upper.
pub open spec fn bounds_of(range: Tree) -> Result<(char, char), RangeFault> {
    if range.children.len() < 2 {
        Err(RangeFault::Malformed)
    } else {
        match (endpoint(range.children[0].text), endpoint(range.children[1].text)) {
            (Some(lower), Some(upper)) => {
                if !ascii(lower) || !ascii(upper) {
                    Err(RangeFault::NotAscii)
                } else if lower as int >= upper as int {
                    Err(RangeFault::Inverted)
                } else {
                    Ok((lower, upper))
                }
            },
            _ => Err(RangeFault::Malformed),
        }
    }
}

/// The characters from `lower` to `upper`, both included, as one-character
/// strings in ascending order.
pub open spec fn span_of(lower: char, upper: char) -> Seq<Seq<char>> {
    Seq::new(
        (upper as int - lower as int + 1) as nat,
        |i: int| seq![((lower as int + i) as u8) as char],
    )
}

/// The strings a range node expands to, or the failure it gives.
pub open spec fn expansion_of(range: Tree) -> Result<Seq<Seq<char>>, Failure> {
    match bounds_of(range) {
        Ok((lower, upper)) => Ok(span_of(lower, upper)),
        Err(fault) => Err(Failure::RangeBounds { fault, span: range.span }),
    }
}

/// Calls `char::to_string`. Taken on trust, from its documentation: the
/// string holds the character `c` and nothing else.
#[verifier::external_body]
pub(crate) fn char_to_string(c: char) -> (s: String)
    ensures
        s@ == seq![c],
{
    c.to_string()
}

/// Reads the two endpoints of a range node and checks that they are single
/// ASCII characters, the lower strictly below the upper. A failure names
/// the fault and the place of the range.
pub fn extract_bounds(range: &Node) -> (r: Result<(char, char), ParseError>)
    ensures
        r matches Ok(bounds) ==> bounds_of(range@) == Ok::<(char, char), RangeFault>(bounds),
        r matches Err(e) ==> bounds_of(range@) matches Err(fault) && e@ == (Failure::RangeBounds {
            fault,
            span: range.span,
        }),
{
    proof {
        if range.children.len() >= 2 {
            range.lemma_child(0);
            range.lemma_child(1);
        } else {
            assert(range@.children.len() == range.children.len());
        }
    }
    if range.children.len() < 2 {
        return Err(ParseError::RangeBounds { fault: RangeFault::Malformed, span: range.span });
    }
    let lower_text = range.children[0].text.as_str();
    let upper_text = range.children[1].text.as_str();
    if lower_text.unicode_len() != 1 || upper_text.unicode_len() != 1 {
        return Err(ParseError::RangeBounds { fault: RangeFault::Malformed, span: range.span });
    }
    let lower = lower_text.get_char(0);
    let upper = upper_text.get_char(0);
    if lower as u32 >= 128 || upper as u32 >= 128 {
        Err(ParseError::RangeBounds { fault: RangeFault::NotAscii, span: range.span })
    } else if lower as u32 >= upper as u32 {
        Err(ParseError::RangeBounds { fault: RangeFault::Inverted, span: range.span })
    } else {
        Ok((lower, upper))
    }
}

/// The characters from `lower` to `upper`, both included, each as a string.
pub fn expand_bounds(lower: char, upper: char) -> (r: Vec<String>)
    requires
        ascii(lower),
        ascii(upper),
        lower as int <= upper as int,
    ensures
        r.deep_view() == span_of(lower, upper),
{
    let mut out: Vec<String> = Vec::new();
    let first: u8 = lower as u8;
    let last: u8 = upper as u8;
    let mut at: u8 = first;
    while at <= last
        invariant
            first == lower as u32,
            last == upper as u32,
            last < 128,
            first <= at <= last + 1,
            out.len() == at - first,
            forall|i: int| 0 <= i < out.len() ==> (#[trigger] out[i])@ == span_of(lower, upper)[i],
        decreases last + 1 - at,
    {
        out.push(char_to_string(at as char));
        at += 1;
    }
    assert(out.deep_view() =~= span_of(lower, upper));
    out
}

/// Expands a range node into the strings it spans.
pub fn expand_range(range: &Node) -> (r: Result<Vec<String>, ParseError>)
    ensures
        r matches Ok(items) ==> expansion_of(range@) == Ok::<Seq<Seq<char>>, Failure>(
            items.deep_view(),
        ),
        r matches Err(e) ==> expansion_of(range@) == Err::<Seq<Seq<char>>, Failure>(e@),
{
    match extract_bounds(range) {
        Ok((lower, upper)) => Ok(expand_bounds(lower, upper)),
        Err(e) => Err(e),
    }
}

} // verus!
