use vstd::prelude::*;

verus! {

/// The pre-resolved numeric ids of the named fields the converter reads:
/// `title`, `content`, `state`, `token` and `text`. The grammar assigns every
/// field name a distinct id once per tree; resolving them up front spares a
/// name lookup per node. A tree whose grammar lacks one of the five names must
/// be rejected before traversal.
#[derive(Clone, Copy, Debug, PartialEq, Eq, Structural)]
pub struct FieldIds {
    pub title: u16,
    pub content: u16,
    pub state: u16,
    pub token: u16,
    pub text: u16,
}

impl FieldIds {
    /// Distinct field names carry distinct ids.
    pub open spec fn wf(self) -> bool {
        &&& self.title != self.content
        &&& self.title != self.state
        &&& self.title != self.token
        &&& self.title != self.text
        &&& self.content != self.state
        &&& self.content != self.token
        &&& self.content != self.text
        &&& self.state != self.token
        &&& self.state != self.text
        &&& self.token != self.text
    }

    /// Builds the cache from the five resolved ids.
    pub fn new(title: u16, content: u16, state: u16, token: u16, text: u16) -> (r: Self)
        ensures
            r == (FieldIds { title, content, state, token, text }),
    {
        FieldIds { title, content, state, token, text }
    }
}

} // verus!
