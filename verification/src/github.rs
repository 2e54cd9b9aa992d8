//! The gemoji shortcode records: an emoji string with the GitHub
//! shortcode aliases that refer to it.

use vstd::prelude::*;

verus! {

/// One gemoji database entry: an emoji and its shortcode aliases, the
/// first of which is canonical.
#[derive(Debug)]
pub struct Emoji {
    pub emoji: String,
    pub aliases: Vec<String>,
}

impl Emoji {
    /// A record from an emoji string and its aliases.
    pub fn new(emoji: String, aliases: Vec<String>) -> (r: Emoji)
        ensures
            r.emoji == emoji,
            r.aliases == aliases,
    {
        Emoji { emoji, aliases }
    }

    /// The shortcode aliases of this emoji.
    pub fn aliases(&self) -> (r: &Vec<String>)
        ensures
            r == &self.aliases,
    {
        &self.aliases
    }
}

} // verus!
