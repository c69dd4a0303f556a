//! Small helpers shared by the models.
use vstd::prelude::*;
use crate::grammar::opt_view;

verus! {

/// An empty text is no text.
pub open spec fn nonempty(o: Option<Seq<char>>) -> Option<Seq<char>> {
    match o {
        Some(s) => if s.len() > 0 {
            Some(s)
        } else {
            None
        },
        None => None,
    }
}

/// `Some("")` becomes `None`; anything else is kept.
pub fn empty_to_none(s: Option<String>) -> (r: Option<String>)
    ensures
        opt_view(r) == nonempty(opt_view(s)),
{
    match s {
        Some(t) => if t.as_str().is_empty() {
            None
        } else {
            Some(t)
        },
        None => None,
    }
}

} // verus!
