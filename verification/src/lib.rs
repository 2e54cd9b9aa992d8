//! Lookup emoji by Unicode value or GitHub shortcode, access metadata
//! (name, Unicode version, group, skin tone, shortcode aliases), iterate
//! over emoji in CLDR order or by group, and fuzzily search emoji names.
//!
//! The data lives in an [`EmojiTable`]: an immutable, densely packed,
//! ordered sequence of [`Emoji`] records together with two key maps
//! (Unicode sequence and shortcode, each resolving to a table position).
//! A table is parsed from the Unicode emoji test data and the gemoji
//! alias list, validated, and frozen; every lookup is a read over it.

use vstd::prelude::*;

pub mod builder;
pub mod chartext;
pub mod github;
pub mod group;
pub mod search;
pub mod table;
pub mod tone;
pub mod unicode;
pub mod version;

pub use crate::group::Group;
pub use crate::table::Emoji;
pub use crate::table::EmojiTable;
pub use crate::tone::SkinTone;
pub use crate::version::UnicodeVersion;

verus! {

/// Look up an emoji by Unicode value.
///
/// If passed a minimally qualified or unqualified emoji this returns the
/// record holding the fully qualified version.
pub fn get<'a>(table: &'a EmojiTable, s: &str) -> (r: Option<&'a Emoji>)
    requires
        table.wf(),
    ensures
        match r {
            Some(e) => table.spec_get(s@) == Some(*e),
            None => table.spec_get(s@) is None,
        },
{
    table.lookup_unicode(s)
}

/// Look up an emoji by GitHub shortcode.
pub fn get_by_shortcode<'a>(table: &'a EmojiTable, s: &str) -> (r: Option<&'a Emoji>)
    requires
        table.wf(),
    ensures
        match r {
            Some(e) => table.spec_get_by_shortcode(s@) == Some(*e),
            None => table.spec_get_by_shortcode(s@) is None,
        },
{
    table.lookup_shortcode(s)
}

/// Returns all emojis in table (CLDR) order, excluding the non-default
/// skin tone variants.
pub fn iter<'a>(table: &'a EmojiTable) -> (r: Vec<&'a Emoji>)
    ensures
        r@.map_values(|e: &Emoji| *e) == table.spec_iter(),
{
    table.default_records()
}

} // verus!

pub use crate::search::search;
