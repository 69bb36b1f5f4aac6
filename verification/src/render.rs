//! What a visualization layer draws an agent as.

use vstd::prelude::*;

verus! {

/// The art asset standing for an agent on screen: an emoji code looked up
/// by a renderer.
#[derive(Clone)]
pub enum SpriteType {
    Emoji(String),
}

impl SpriteType {
    /// The emoji code carried.
    pub fn emoji_code(self) -> (r: String)
        ensures
            self matches SpriteType::Emoji(c) && r == c,
    {
        match self {
            SpriteType::Emoji(c) => c,
        }
    }
}

} // verus!
