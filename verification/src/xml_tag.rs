//! One frame of the tag stack: a currently open element and whether its path
//! line has been emitted already.

use vstd::prelude::*;

verus! {

/// The mathematical view of one open-element frame.
#[verifier::ext_equal]
pub struct TagView {
    /// The element's local tag name.
    pub name: Seq<char>,
    /// Whether the frame's path line has been written already.
    pub printed: bool,
}

/// A currently open element: its tag name as given by the parser, and a flag
/// that starts `false` and is set `true` exactly once its path line (bare or
/// annotated) has been written.
pub struct XmlTag {
    name: String,
    printed: bool,
}

impl View for XmlTag {
    type V = TagView;

    closed spec fn view(&self) -> TagView {
        TagView { name: self.name@, printed: self.printed }
    }
}

impl XmlTag {
    /// A frame with the given name and printed flag.
    pub fn from(name: &str, printed: bool) -> (r: Self)
        ensures
            r@ == (TagView { name: name@, printed }),
    {
        XmlTag { name: String::from_str(name), printed }
    }

    /// Whether the frame's path line has been written already.
    pub fn printed(&self) -> (r: bool)
        ensures
            r == self@.printed,
    {
        self.printed
    }

    /// Sets the printed flag; the name is unchanged.
    pub fn set_printed(&mut self, val: bool)
        ensures
            final(self)@ == (TagView { name: old(self)@.name, printed: val }),
    {
        self.printed = val;
    }

    /// The element's tag name.
    pub fn name(&self) -> (r: &str)
        ensures
            r@ == self@.name,
    {
        self.name.as_str()
    }
}

} // verus!
