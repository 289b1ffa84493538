//! Key codes and the side tag of a keyboard half.

use vstd::prelude::*;

verus! {

/// The reserved key code that means "no binding"; newly inserted rows and
/// columns are filled with it.
pub open spec fn blank_code() -> Seq<char> {
    "KC_NO"@
}

/// One key's binding: an opaque identifier string. No internal structure is
/// interpreted.
#[derive(Debug)]
pub struct Key {
    code: String,
}

impl View for Key {
    type V = Seq<char>;

    closed spec fn view(&self) -> Seq<char> {
        self.code@
    }
}

impl DeepView for Key {
    type V = Seq<char>;

    open spec fn deep_view(&self) -> Seq<char> {
        self.view()
    }
}

impl Key {
    pub fn new(k: String) -> (r: Self)
        ensures
            r@ == k@,
    {
        Key { code: k }
    }

    pub fn k(&self) -> (r: &str)
        ensures
            r@ == self@,
    {
        self.code.as_str()
    }

    /// The blank key: its code is the reserved "no binding" identifier.
    pub fn blank() -> (r: Self)
        ensures
            r@ == blank_code(),
    {
        Key { code: "KC_NO".to_owned() }
    }

    /// A key with the same code; used where a row is copied rather than moved.
    pub fn duplicate(&self) -> (r: Self)
        ensures
            r@ == self@,
    {
        Key { code: self.code.clone() }
    }
}

/// Which physical half of the keyboard a matrix describes.
#[derive(Debug, Clone, Copy, PartialEq, Eq, Structural)]
pub enum Side {
    Left,
    Right,
}

/// The side opposite to `s`.
pub open spec fn opposite_side(s: Side) -> Side {
    match s {
        Side::Left => Side::Right,
        Side::Right => Side::Left,
    }
}

impl Side {
    pub fn opposite(&self) -> (r: Self)
        ensures
            r == opposite_side(*self),
    {
        match self {
            Side::Left => Side::Right,
            Side::Right => Side::Left,
        }
    }
}

/// Flipping a side twice gives the side back.
pub proof fn lemma_opposite_involution(s: Side)
    ensures
        opposite_side(opposite_side(s)) == s,
{
}

} // verus!
