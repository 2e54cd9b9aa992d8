//! Emoji groups: the top-level Unicode CLDR categories.

use vstd::prelude::*;

use crate::table::Emoji;
use crate::table::EmojiTable;

verus! {

/// A category for an emoji, based on Unicode CLDR data. The synthetic
/// "Component" category is excluded from tables entirely.
#[derive(Debug, Clone, Copy, PartialEq, Eq, Hash, Structural)]
pub enum Group {
    SmileysAndEmotion,
    PeopleAndBody,
    AnimalsAndNature,
    FoodAndDrink,
    TravelAndPlaces,
    Activities,
    Objects,
    Symbols,
    Flags,
}

/// The position of a group in CLDR order.
pub open spec fn group_rank(g: Group) -> int {
    match g {
        Group::SmileysAndEmotion => 0,
        Group::PeopleAndBody => 1,
        Group::AnimalsAndNature => 2,
        Group::FoodAndDrink => 3,
        Group::TravelAndPlaces => 4,
        Group::Activities => 5,
        Group::Objects => 6,
        Group::Symbols => 7,
        Group::Flags => 8,
    }
}

/// The group that stands at a given rank of CLDR order.
pub open spec fn group_of_rank(r: int) -> Group {
    if r == 0 { Group::SmileysAndEmotion }
    else if r == 1 { Group::PeopleAndBody }
    else if r == 2 { Group::AnimalsAndNature }
    else if r == 3 { Group::FoodAndDrink }
    else if r == 4 { Group::TravelAndPlaces }
    else if r == 5 { Group::Activities }
    else if r == 6 { Group::Objects }
    else if r == 7 { Group::Symbols }
    else { Group::Flags }
}

/// All groups, in CLDR order.
pub open spec fn spec_groups() -> Seq<Group> {
    seq![
        Group::SmileysAndEmotion,
        Group::PeopleAndBody,
        Group::AnimalsAndNature,
        Group::FoodAndDrink,
        Group::TravelAndPlaces,
        Group::Activities,
        Group::Objects,
        Group::Symbols,
        Group::Flags,
    ]
}

impl Group {
    /// All groups, in CLDR order.
    pub fn iter() -> (r: Vec<Group>)
        ensures
            r@ == spec_groups(),
    {
        let mut v: Vec<Group> = Vec::new();
        v.push(Group::SmileysAndEmotion);
        v.push(Group::PeopleAndBody);
        v.push(Group::AnimalsAndNature);
        v.push(Group::FoodAndDrink);
        v.push(Group::TravelAndPlaces);
        v.push(Group::Activities);
        v.push(Group::Objects);
        v.push(Group::Symbols);
        v.push(Group::Flags);
        proof {
            assert(v@ =~= spec_groups());
        }
        v
    }

    /// The position of this group in CLDR order.
    pub fn rank(self) -> (r: u8)
        ensures
            r as int == group_rank(self),
    {
        match self {
            Group::SmileysAndEmotion => 0,
            Group::PeopleAndBody => 1,
            Group::AnimalsAndNature => 2,
            Group::FoodAndDrink => 3,
            Group::TravelAndPlaces => 4,
            Group::Activities => 5,
            Group::Objects => 6,
            Group::Symbols => 7,
            Group::Flags => 8,
        }
    }

    /// The emojis of this group's default enumeration, in table order.
    pub fn emojis<'a>(&self, table: &'a EmojiTable) -> (r: Vec<&'a Emoji>)
        ensures
            r@.map_values(|e: &Emoji| *e) == table.spec_by_group(*self),
    {
        table.records_of_group(*self)
    }
}

} // verus!
