//! The emoji table: an immutable ordered sequence of records, with two
//! key maps resolving Unicode sequences and shortcodes to positions.
//!
//! The table is the single source of truth. Its well-formedness
//! predicate [`EmojiTable::wf`] states the layout invariants every
//! constructed table satisfies: key maps are collision-free, point
//! into the table and hold nothing but the records' own keys, every
//! record is reachable from its own sequence, every alias is reachable
//! from the shortcode map, skin-tone families are contiguous runs in
//! fixed tone order with the default member first, and record groups
//! never decrease along the table.
//!
//! The key maps are plain vectors scanned linearly for an exact string
//! match: compile-time perfect-hash tables cannot exist under the
//! verifier, and the lookup contract — exact match against every
//! registered key, nothing else — is stated and proved over the scan.

use vstd::prelude::*;

use crate::group::Group;
use crate::tone::SkinTone;
use crate::tone::tone_rank;
use crate::version::UnicodeVersion;

verus! {

/// One emoji record: a fully qualified Unicode sequence together with
/// its metadata and its links into the table.
///
/// `skin_tone` is present exactly when the record belongs to a
/// skin-tone family; it holds the table position of the family's
/// default member, the family size, and this record's own tone.
#[derive(Debug)]
pub struct Emoji {
    pub emoji: String,
    pub name: String,
    pub unicode_version: UnicodeVersion,
    pub group: Group,
    pub skin_tone: Option<(usize, usize, SkinTone)>,
    pub aliases: Vec<String>,
}

/// The tone of a record, when it belongs to a skin-tone family.
pub open spec fn record_tone(e: Emoji) -> Option<SkinTone> {
    match e.skin_tone {
        Some(info) => Some(info.2),
        None => None,
    }
}

/// A record visible in the default enumeration: either without a
/// skin-tone dimension, or its family's default member.
pub open spec fn is_default_record(e: Emoji) -> bool {
    match e.skin_tone {
        Some(info) => info.2 == SkinTone::Default,
        None => true,
    }
}

/// Membership in the default enumeration, as a named predicate so that
/// every statement filters by one and the same function value.
pub open spec fn default_pred() -> spec_fn(Emoji) -> bool {
    |e: Emoji| is_default_record(e)
}

/// Membership in one group's default enumeration.
pub open spec fn group_pred(g: Group) -> spec_fn(Emoji) -> bool {
    |e: Emoji| is_default_record(e) && e.group == g
}

/// The first record of a family slice that carries the wanted tone.
pub open spec fn find_tone(fam: Seq<Emoji>, t: SkinTone) -> Option<Emoji>
    decreases fam.len(),
{
    if fam.len() == 0 {
        None
    } else if record_tone(fam[0]) == Some(t) {
        Some(fam[0])
    } else {
        find_tone(fam.drop_first(), t)
    }
}

/// The position the first entry with the given key maps to, if any.
pub open spec fn key_index(keys: Seq<(Seq<char>, int)>, k: Seq<char>) -> Option<int>
    decreases keys.len(),
{
    if keys.len() == 0 {
        None
    } else if keys[0].0 == k {
        Some(keys[0].1)
    } else {
        key_index(keys.drop_first(), k)
    }
}

/// Some entry maps key `k` to position `v`.
pub open spec fn has_key(keys: Seq<(Seq<char>, int)>, k: Seq<char>, v: int) -> bool {
    exists|i: int| 0 <= i < keys.len() && keys[i] == (k, v)
}

/// Every entry points at a table position below `len`.
pub open spec fn keys_in_range(keys: Seq<(Seq<char>, int)>, len: int) -> bool {
    forall|i: int| 0 <= i < keys.len() ==> 0 <= (#[trigger] keys[i]).1 < len
}

/// No two entries share a key string.
pub open spec fn keys_distinct(keys: Seq<(Seq<char>, int)>) -> bool {
    forall|i: int, j: int| 0 <= i < j < keys.len() ==> (#[trigger] keys[i]).0 != (#[trigger] keys[j]).0
}

/// The entry at `j` holds an alias of the record it points at.
pub open spec fn key_is_alias(keys: Seq<(Seq<char>, int)>, s: Seq<Emoji>, j: int) -> bool {
    exists|a: int|
        0 <= a < s[keys[j].1].aliases@.len() && keys[j].0 == (#[trigger] s[keys[j].1].aliases@[a])@
}

/// Both members carry the same family start and size.
pub open spec fn same_family(s: Seq<Emoji>, k: int, b: usize, n: usize) -> bool {
    match s[k].skin_tone {
        Some(info) => info.0 == b && info.1 == n,
        None => false,
    }
}

/// The tone of a family member (meaningful only inside a family run).
pub open spec fn member_tone(s: Seq<Emoji>, k: int) -> SkinTone {
    match s[k].skin_tone {
        Some(info) => info.2,
        None => SkinTone::Default,
    }
}

/// The skin-tone layout invariant, seen from one record: if the record
/// belongs to a family, the family is a contiguous run containing it,
/// of size 6 or 26, all members agree on the run, and the member at
/// offset `k` carries the tone of rank `k` — the default first, then
/// the fixed enumeration order with no tone skipped.
pub open spec fn tone_ok(s: Seq<Emoji>, i: int) -> bool {
    match s[i].skin_tone {
        Some(info) => {
            let b = info.0 as int;
            let n = info.1 as int;
            &&& 0 <= b <= i < b + n <= s.len()
            &&& (info.1 == 6usize || info.1 == 26usize)
            &&& forall|k: int| b <= k < b + n ==> same_family(s, k, info.0, info.1)
            &&& forall|k1: int, k2: int| b <= k1 < k2 < b + n ==> tone_rank(
                member_tone(s, k1),
            ) < tone_rank(member_tone(s, k2))
            &&& forall|k: int| b <= k < b + n ==> tone_rank(#[trigger] member_tone(s, k)) == k - b
            &&& member_tone(s, b) == SkinTone::Default
        },
        None => true,
    }
}

/// The skin-tone layout invariant over the whole table.
pub open spec fn tone_linked(s: Seq<Emoji>) -> bool {
    forall|i: int| 0 <= i < s.len() ==> #[trigger] tone_ok(s, i)
}

/// Group ranks never decrease along the table, so records of one group
/// form one contiguous run.
pub open spec fn groups_ordered(s: Seq<Emoji>) -> bool {
    forall|i: int, j: int|
        0 <= i < j < s.len() ==> crate::group::group_rank((#[trigger] s[i]).group) <= crate::group::group_rank(
            (#[trigger] s[j]).group,
        )
}

/// An immutable emoji table: the record sequence and the two key maps.
/// Constructed once, read-only thereafter.
pub struct EmojiTable {
    emojis: Vec<Emoji>,
    unicode_keys: Vec<(String, usize)>,
    shortcode_keys: Vec<(String, usize)>,
}

impl EmojiTable {
    /// The ordered record sequence.
    pub closed spec fn spec_records(self) -> Seq<Emoji> {
        self.emojis@
    }

    /// The Unicode key map as (key characters, position) pairs.
    pub closed spec fn spec_unicode_keys(self) -> Seq<(Seq<char>, int)> {
        self.unicode_keys@.map_values(|p: (String, usize)| (p.0@, p.1 as int))
    }

    /// The shortcode key map as (key characters, position) pairs.
    pub closed spec fn spec_shortcode_keys(self) -> Seq<(Seq<char>, int)> {
        self.shortcode_keys@.map_values(|p: (String, usize)| (p.0@, p.1 as int))
    }

    /// The record a Unicode sequence resolves to, if any.
    pub open spec fn spec_get(self, k: Seq<char>) -> Option<Emoji> {
        match key_index(self.spec_unicode_keys(), k) {
            Some(i) => Some(self.spec_records()[i]),
            None => None,
        }
    }

    /// The record a shortcode resolves to, if any.
    pub open spec fn spec_get_by_shortcode(self, k: Seq<char>) -> Option<Emoji> {
        match key_index(self.spec_shortcode_keys(), k) {
            Some(i) => Some(self.spec_records()[i]),
            None => None,
        }
    }

    /// The default enumeration: table order with the non-default
    /// skin-tone variants left out.
    pub open spec fn spec_iter(self) -> Seq<Emoji> {
        self.spec_records().filter(default_pred())
    }

    /// The default enumeration restricted to one group.
    pub open spec fn spec_by_group(self, g: Group) -> Seq<Emoji> {
        self.spec_records().filter(group_pred(g))
    }

    /// The family slice of a record, if it has a skin-tone dimension.
    pub open spec fn spec_skin_tones(self, e: Emoji) -> Option<Seq<Emoji>> {
        match e.skin_tone {
            Some(info) => Some(
                self.spec_records().subrange(info.0 as int, info.0 as int + info.1 as int),
            ),
            None => None,
        }
    }

    /// The family member of a record that carries the given tone.
    pub open spec fn spec_with_tone(self, e: Emoji, t: SkinTone) -> Option<Emoji> {
        match self.spec_skin_tones(e) {
            Some(fam) => find_tone(fam, t),
            None => None,
        }
    }

    /// The record is one of the table's.
    pub open spec fn spec_contains(self, e: Emoji) -> bool {
        exists|i: int| 0 <= i < self.spec_records().len() && self.spec_records()[i] == e
    }

    /// The table's layout invariants; every constructed table satisfies
    /// them, and every lookup relies on them.
    pub open spec fn wf(self) -> bool {
        &&& keys_in_range(self.spec_unicode_keys(), self.spec_records().len() as int)
        &&& keys_in_range(self.spec_shortcode_keys(), self.spec_records().len() as int)
        &&& keys_distinct(self.spec_unicode_keys())
        &&& keys_distinct(self.spec_shortcode_keys())
        &&& forall|r: int|
            0 <= r < self.spec_records().len() ==> has_key(
                self.spec_unicode_keys(),
                (#[trigger] self.spec_records()[r]).emoji@,
                r,
            )
        &&& forall|r: int, a: int|
            0 <= r < self.spec_records().len() && 0 <= a < (#[trigger] self.spec_records()[r]).aliases@.len()
                ==> has_key(
                self.spec_shortcode_keys(),
                #[trigger] self.spec_records()[r].aliases@[a]@,
                r,
            )
        &&& forall|j: int|
            0 <= j < self.spec_shortcode_keys().len() ==> #[trigger] key_is_alias(
                self.spec_shortcode_keys(),
                self.spec_records(),
                j,
            )
        &&& tone_linked(self.spec_records())
        &&& groups_ordered(self.spec_records())
    }

    /// Number of records.
    pub fn len(&self) -> (n: usize)
        ensures
            n == self.spec_records().len(),
    {
        self.emojis.len()
    }

    /// The record at a table position.
    pub fn get_by_position(&self, i: usize) -> (r: &Emoji)
        requires
            i < self.spec_records().len(),
        ensures
            *r == self.spec_records()[i as int],
    {
        &self.emojis[i]
    }

    /// All records, in table order.
    pub fn records(&self) -> (r: &Vec<Emoji>)
        ensures
            r@ == self.spec_records(),
    {
        &self.emojis
    }

    /// Put the parts of a table together; the builder alone calls this,
    /// after establishing the invariants the parts must satisfy.
    pub(crate) fn assemble(
        emojis: Vec<Emoji>,
        unicode_keys: Vec<(String, usize)>,
        shortcode_keys: Vec<(String, usize)>,
    ) -> (t: EmojiTable)
        ensures
            t.spec_records() == emojis@,
            t.spec_unicode_keys() == unicode_keys@.map_values(
                |p: (String, usize)| (p.0@, p.1 as int),
            ),
            t.spec_shortcode_keys() == shortcode_keys@.map_values(
                |p: (String, usize)| (p.0@, p.1 as int),
            ),
    {
        EmojiTable { emojis, unicode_keys, shortcode_keys }
    }

    /// Resolve a Unicode sequence to its record.
    pub fn lookup_unicode<'a>(&'a self, s: &str) -> (r: Option<&'a Emoji>)
        requires
            self.wf(),
        ensures
            match r {
                Some(e) => self.spec_get(s@) == Some(*e),
                None => self.spec_get(s@) is None,
            },
    {
        match scan_keys(&self.unicode_keys, s) {
            Some(i) => {
                proof {
                    key_found_in_range(self.spec_unicode_keys(), s@);
                }
                Some(&self.emojis[i])
            },
            None => None,
        }
    }

    /// Resolve a shortcode to its record.
    pub fn lookup_shortcode<'a>(&'a self, s: &str) -> (r: Option<&'a Emoji>)
        requires
            self.wf(),
        ensures
            match r {
                Some(e) => self.spec_get_by_shortcode(s@) == Some(*e),
                None => self.spec_get_by_shortcode(s@) is None,
            },
    {
        match scan_keys(&self.shortcode_keys, s) {
            Some(i) => {
                proof {
                    key_found_in_range(self.spec_shortcode_keys(), s@);
                }
                Some(&self.emojis[i])
            },
            None => None,
        }
    }

    /// The records of one group's default enumeration, in table order.
    pub fn records_of_group<'a>(&'a self, g: Group) -> (r: Vec<&'a Emoji>)
        ensures
            r@.map_values(|e: &Emoji| *e) == self.spec_by_group(g),
    {
        let mut out: Vec<&Emoji> = Vec::new();
        let n = self.emojis.len();
        let mut i: usize = 0;
        while i < n
            invariant
                n == self.spec_records().len(),
                i <= n,
                out@.map_values(|e: &Emoji| *e) == self.spec_records().subrange(
                    0,
                    i as int,
                ).filter(group_pred(g)),
            decreases n - i,
        {
            let e = &self.emojis[i];
            let ghost prefix = self.spec_records().subrange(0, i as int);
            let ghost prefix1 = self.spec_records().subrange(0, i as int + 1);
            proof {
                assert(prefix1.drop_last() =~= prefix);
                assert(prefix1.last() == self.spec_records()[i as int]);
                reveal(Seq::filter);
            }
            let default = match e.skin_tone {
                Some((_, _, t)) => t == SkinTone::Default,
                None => true,
            };
            if default && e.group == g {
                out.push(e);
            }
            proof {
                assert(out@.map_values(|e: &Emoji| *e) =~= prefix1.filter(group_pred(g)));
            }
            i = i + 1;
        }
        proof {
            assert(self.spec_records().subrange(0, n as int) =~= self.spec_records());
        }
        out
    }

    /// The records of the default enumeration, in table order.
    pub fn default_records<'a>(&'a self) -> (r: Vec<&'a Emoji>)
        ensures
            r@.map_values(|e: &Emoji| *e) == self.spec_iter(),
    {
        let mut out: Vec<&Emoji> = Vec::new();
        let n = self.emojis.len();
        let mut i: usize = 0;
        while i < n
            invariant
                n == self.spec_records().len(),
                i <= n,
                out@.map_values(|e: &Emoji| *e) == self.spec_records().subrange(0, i as int).filter(
                    default_pred(),
                ),
            decreases n - i,
        {
            let e = &self.emojis[i];
            let ghost prefix = self.spec_records().subrange(0, i as int);
            let ghost prefix1 = self.spec_records().subrange(0, i as int + 1);
            proof {
                assert(prefix1.drop_last() =~= prefix);
                assert(prefix1.last() == self.spec_records()[i as int]);
                reveal(Seq::filter);
            }
            let default = match e.skin_tone {
                Some((_, _, t)) => t == SkinTone::Default,
                None => true,
            };
            if default {
                out.push(e);
            }
            proof {
                assert(out@.map_values(|e: &Emoji| *e) =~= prefix1.filter(default_pred()));
            }
            i = i + 1;
        }
        proof {
            assert(self.spec_records().subrange(0, n as int) =~= self.spec_records());
        }
        out
    }
}

impl Emoji {
    /// This emoji as a string: its fully qualified Unicode sequence.
    pub fn as_str(&self) -> (r: &str)
        ensures
            r@ == self.emoji@,
    {
        self.emoji.as_str()
    }

    /// This emoji as a slice of UTF-8 encoded bytes.
    pub fn as_bytes(&self) -> (r: &[u8])
        ensures
            r@ == vstd::utf8::encode_utf8(self.emoji@),
    {
        self.emoji.as_str().as_bytes()
    }

    /// This emoji as an owned string.
    pub fn to_string(&self) -> (r: String)
        ensures
            r@ == self.emoji@,
    {
        self.emoji.clone()
    }

    /// The CLDR name of this emoji.
    pub fn name(&self) -> (r: &str)
        ensures
            r@ == self.name@,
    {
        self.name.as_str()
    }

    /// The Unicode version this emoji first appeared in.
    pub fn unicode_version(&self) -> (r: UnicodeVersion)
        ensures
            r == self.unicode_version,
    {
        self.unicode_version
    }

    /// The group this emoji belongs to.
    pub fn group(&self) -> (r: Group)
        ensures
            r == self.group,
    {
        self.group
    }

    /// The skin tone of this emoji; absent when skin tones are not
    /// applicable to it.
    pub fn skin_tone(&self) -> (r: Option<SkinTone>)
        ensures
            r == record_tone(*self),
    {
        match self.skin_tone {
            Some((_, _, t)) => Some(t),
            None => None,
        }
    }

    /// The first GitHub shortcode of this emoji, if it has any.
    pub fn shortcode(&self) -> (r: Option<&str>)
        ensures
            match r {
                Some(s) => self.aliases@.len() > 0 && s@ == self.aliases@[0]@,
                None => self.aliases@.len() == 0,
            },
    {
        if self.aliases.len() == 0 {
            None
        } else {
            Some(self.aliases[0].as_str())
        }
    }

    /// All GitHub shortcodes of this emoji, first one canonical.
    pub fn shortcodes(&self) -> (r: Vec<&str>)
        ensures
            r@.len() == self.aliases@.len(),
            forall|i: int| 0 <= i < r@.len() ==> (#[trigger] r@[i])@ == self.aliases@[i]@,
    {
        let mut out: Vec<&str> = Vec::new();
        let n = self.aliases.len();
        let mut i: usize = 0;
        while i < n
            invariant
                n == self.aliases@.len(),
                i <= n,
                out@.len() == i,
                forall|j: int| 0 <= j < i ==> (#[trigger] out@[j])@ == self.aliases@[j]@,
            decreases n - i,
        {
            out.push(self.aliases[i].as_str());
            i = i + 1;
        }
        out
    }

    /// This emoji together with all its skin-tone variants, in family
    /// order; absent exactly when skin tones are not applicable.
    pub fn skin_tones<'a>(&self, table: &'a EmojiTable) -> (r: Option<Vec<&'a Emoji>>)
        requires
            table.wf(),
            table.spec_contains(*self),
        ensures
            match r {
                Some(v) => table.spec_skin_tones(*self) == Some(
                    v@.map_values(|e: &Emoji| *e),
                ),
                None => table.spec_skin_tones(*self) is None,
            },
    {
        match self.skin_tone {
            None => None,
            Some((b, n, _)) => {
                proof {
                    let i = choose|i: int|
                        0 <= i < table.spec_records().len() && table.spec_records()[i] == *self;
                    assert(tone_ok(table.spec_records(), i));
                }
                let len = table.emojis.len();
                let end = b + n;
                let mut out: Vec<&Emoji> = Vec::new();
                let mut k: usize = b;
                while k < end
                    invariant
                        end == b + n,
                        end <= table.spec_records().len(),
                        b <= k <= end,
                        out@.map_values(|e: &Emoji| *e) == table.spec_records().subrange(
                            b as int,
                            k as int,
                        ),
                    decreases end - k,
                {
                    let e = &table.emojis[k];
                    proof {
                        assert(out@.map_values(|e: &Emoji| *e).len() == k - b);
                    }
                    out.push(e);
                    proof {
                        assert(out@.map_values(|e: &Emoji| *e) =~= table.spec_records().subrange(
                            b as int,
                            k as int + 1,
                        ));
                    }
                    k = k + 1;
                }
                Some(out)
            },
        }
    }

    /// The member of this emoji's skin-tone family that carries the
    /// given tone; absent when skin tones are not applicable or the
    /// family has no such member.
    pub fn with_skin_tone<'a>(&self, table: &'a EmojiTable, skin_tone: SkinTone) -> (r: Option<
        &'a Emoji,
    >)
        requires
            table.wf(),
            table.spec_contains(*self),
        ensures
            match r {
                Some(e) => table.spec_with_tone(*self, skin_tone) == Some(*e),
                None => table.spec_with_tone(*self, skin_tone) is None,
            },
    {
        match self.skin_tone {
            None => None,
            Some((b, n, _)) => {
                proof {
                    let i = choose|i: int|
                        0 <= i < table.spec_records().len() && table.spec_records()[i] == *self;
                    assert(tone_ok(table.spec_records(), i));
                }
                let ghost fam = table.spec_records().subrange(b as int, b as int + n as int);
                let len = table.emojis.len();
                let end = b + n;
                let mut k: usize = b;
                while k < end
                    invariant
                        end == b + n,
                        end <= table.spec_records().len(),
                        b <= k <= end,
                        fam == table.spec_records().subrange(b as int, b as int + n as int),
                        table.spec_skin_tones(*self) == Some(fam),
                        forall|j: int|
                            0 <= j < k - b ==> record_tone(#[trigger] fam[j]) != Some(skin_tone),
                    decreases end - k,
                {
                    let e = &table.emojis[k];
                    let matched = match e.skin_tone {
                        Some((_, _, t)) => t == skin_tone,
                        None => false,
                    };
                    if matched {
                        proof {
                            assert(*e == table.spec_records()[k as int]);
                            assert(fam[k - b] == table.spec_records()[k as int]);
                            assert(record_tone(fam[k - b]) == Some(skin_tone));
                            find_tone_of_first(fam, skin_tone, k as int - b as int);
                        }
                        return Some(e);
                    }
                    proof {
                        assert(fam[k - b] == table.spec_records()[k as int]);
                    }
                    k = k + 1;
                }
                proof {
                    find_tone_of_none(fam, skin_tone);
                }
                None
            },
        }
    }
}

impl core::cmp::PartialEq for Emoji {
    /// Two records are the same emoji when their sequences agree.
    fn eq(&self, other: &Emoji) -> (r: bool) {
        self.emoji.eq(&other.emoji)
    }
}

impl vstd::std_specs::cmp::PartialEqSpecImpl for Emoji {
    open spec fn obeys_eq_spec() -> bool {
        true
    }

    open spec fn eq_spec(&self, other: &Emoji) -> bool {
        self.emoji@ == other.emoji@
    }
}

impl core::cmp::Eq for Emoji {

}

impl core::cmp::PartialEq<str> for Emoji {
    /// A record equals the string holding its sequence.
    fn eq(&self, other: &str) -> (r: bool) {
        let owned: String = other.to_owned();
        self.emoji.eq(&owned)
    }
}

impl vstd::std_specs::cmp::PartialEqSpecImpl<str> for Emoji {
    open spec fn obeys_eq_spec() -> bool {
        true
    }

    open spec fn eq_spec(&self, other: &str) -> bool {
        self.emoji@ == other@
    }
}

impl core::cmp::PartialEq<&str> for Emoji {
    /// A record equals the string holding its sequence.
    fn eq(&self, other: &&str) -> (r: bool) {
        let owned: String = (*other).to_owned();
        self.emoji.eq(&owned)
    }
}

impl vstd::std_specs::cmp::PartialEqSpecImpl<&str> for Emoji {
    open spec fn obeys_eq_spec() -> bool {
        true
    }

    open spec fn eq_spec(&self, other: &&str) -> bool {
        self.emoji@ == (*other)@
    }
}

/// If a family member at `i` carries the tone and no earlier member
/// does, the tone finds that member.
proof fn find_tone_of_first(fam: Seq<Emoji>, t: SkinTone, i: int)
    requires
        0 <= i < fam.len(),
        record_tone(fam[i]) == Some(t),
        forall|j: int| 0 <= j < i ==> record_tone(#[trigger] fam[j]) != Some(t),
    ensures
        find_tone(fam, t) == Some(fam[i]),
    decreases i,
{
    if i > 0 {
        find_tone_of_first(fam.drop_first(), t, i - 1);
    }
}

/// If no family member carries the tone, nothing is found.
proof fn find_tone_of_none(fam: Seq<Emoji>, t: SkinTone)
    requires
        forall|j: int| 0 <= j < fam.len() ==> record_tone(#[trigger] fam[j]) != Some(t),
    ensures
        find_tone(fam, t) is None,
    decreases fam.len(),
{
    if fam.len() > 0 {
        find_tone_of_none(fam.drop_first(), t);
    }
}

/// If an entry at `i` holds the key and no earlier entry does, the key
/// resolves to that entry's position.
proof fn key_index_of_first(keys: Seq<(Seq<char>, int)>, k: Seq<char>, i: int)
    requires
        0 <= i < keys.len(),
        keys[i].0 == k,
        forall|j: int| 0 <= j < i ==> (#[trigger] keys[j]).0 != k,
    ensures
        key_index(keys, k) == Some(keys[i].1),
    decreases i,
{
    if i > 0 {
        key_index_of_first(keys.drop_first(), k, i - 1);
    }
}

/// If no entry holds the key, it resolves to nothing.
proof fn key_index_of_none(keys: Seq<(Seq<char>, int)>, k: Seq<char>)
    requires
        forall|j: int| 0 <= j < keys.len() ==> (#[trigger] keys[j]).0 != k,
    ensures
        key_index(keys, k) is None,
    decreases keys.len(),
{
    if keys.len() > 0 {
        key_index_of_none(keys.drop_first(), k);
    }
}

/// A resolved position lies below every bound the entries respect.
proof fn key_found_in_range(keys: Seq<(Seq<char>, int)>, k: Seq<char>)
    ensures
        key_index(keys, k) matches Some(v) ==> exists|i: int|
            0 <= i < keys.len() && #[trigger] keys[i] == (k, v),
    decreases keys.len(),
{
    if keys.len() > 0 {
        key_found_in_range(keys.drop_first(), k);
        if keys[0].0 == k {
        } else {
            match key_index(keys.drop_first(), k) {
                Some(v) => {
                    let i = choose|i: int|
                        0 <= i < keys.drop_first().len() && #[trigger] keys.drop_first()[i] == (
                        k,
                        v,
                        );
                    assert(keys[i + 1] == (k, v));
                },
                None => {},
            }
        }
    }
}

/// In a collision-free key map, any entry holding a key decides what
/// the key resolves to.
proof fn key_index_unique(keys: Seq<(Seq<char>, int)>, k: Seq<char>, j: int)
    requires
        keys_distinct(keys),
        0 <= j < keys.len(),
        keys[j].0 == k,
    ensures
        key_index(keys, k) == Some(keys[j].1),
    decreases keys.len(),
{
    if keys[0].0 == k {
        assert(j == 0);
    } else {
        assert(keys_distinct(keys.drop_first())) by {
            assert forall|i1: int, i2: int|
                0 <= i1 < i2 < keys.drop_first().len() implies (#[trigger] keys.drop_first()[i1]).0
                != (#[trigger] keys.drop_first()[i2]).0 by {
                assert(keys.drop_first()[i1] == keys[i1 + 1]);
                assert(keys.drop_first()[i2] == keys[i2 + 1]);
            }
        }
        assert(keys.drop_first()[j - 1] == keys[j]);
        key_index_unique(keys.drop_first(), k, j - 1);
    }
}

/// Law: looking up the sequence of the record at any table position
/// returns that very position, and so that very record.
pub proof fn lemma_sequence_round_trip(t: EmojiTable, i: int)
    requires
        t.wf(),
        0 <= i < t.spec_records().len(),
    ensures
        key_index(t.spec_unicode_keys(), t.spec_records()[i].emoji@) == Some(i),
        t.spec_get(t.spec_records()[i].emoji@) == Some(t.spec_records()[i]),
{
    let keys = t.spec_unicode_keys();
    let k = t.spec_records()[i].emoji@;
    assert(has_key(keys, k, i));
    let j = choose|j: int| 0 <= j < keys.len() && keys[j] == (k, i);
    key_index_unique(keys, k, j);
}

/// Law: a shortcode lookup that finds a record found one of that very
/// record's aliases — the shortcode map holds nothing else.
pub proof fn lemma_shortcode_found_is_alias(t: EmojiTable, k: Seq<char>, e: Emoji)
    requires
        t.wf(),
        t.spec_get_by_shortcode(k) == Some(e),
    ensures
        exists|a: int| 0 <= a < e.aliases@.len() && (#[trigger] e.aliases@[a])@ == k,
{
    let keys = t.spec_shortcode_keys();
    key_found_in_range(keys, k);
    match key_index(keys, k) {
        Some(v) => {
            let j = choose|j: int| 0 <= j < keys.len() && #[trigger] keys[j] == (k, v);
            assert(key_is_alias(keys, t.spec_records(), j));
            let a = choose|a: int|
                0 <= a < t.spec_records()[keys[j].1].aliases@.len() && keys[j].0 == (
                #[trigger] t.spec_records()[keys[j].1].aliases@[a])@;
            assert(e == t.spec_records()[v]);
            assert((e.aliases@[a])@ == k);
        },
        None => {},
    }
}

/// Law: looking up any shortcode of a record returns that record
/// (`lookup_by_shortcode(e.shortcode) == e`).
pub proof fn lemma_shortcode_round_trip(t: EmojiTable, i: int, a: int)
    requires
        t.wf(),
        0 <= i < t.spec_records().len(),
        0 <= a < t.spec_records()[i].aliases@.len(),
    ensures
        t.spec_get_by_shortcode(t.spec_records()[i].aliases@[a]@) == Some(t.spec_records()[i]),
{
    let keys = t.spec_shortcode_keys();
    let k = t.spec_records()[i].aliases@[a]@;
    assert(has_key(keys, k, i));
    let j = choose|j: int| 0 <= j < keys.len() && keys[j] == (k, i);
    key_index_unique(keys, k, j);
}

/// Law: two different table positions hold records with different
/// sequences — the Unicode key space is collision-free.
pub proof fn lemma_sequences_unique(t: EmojiTable, i: int, j: int)
    requires
        t.wf(),
        0 <= i < t.spec_records().len(),
        0 <= j < t.spec_records().len(),
        i != j,
    ensures
        t.spec_records()[i].emoji@ != t.spec_records()[j].emoji@,
{
    let keys = t.spec_unicode_keys();
    if t.spec_records()[i].emoji@ == t.spec_records()[j].emoji@ {
        let k = t.spec_records()[i].emoji@;
        assert(has_key(keys, k, i));
        assert(has_key(keys, k, j));
        let ji = choose|ji: int| 0 <= ji < keys.len() && keys[ji] == (k, i);
        let jj = choose|jj: int| 0 <= jj < keys.len() && keys[jj] == (k, j);
        assert(ji != jj);
        if ji < jj {
            assert(keys[ji].0 != keys[jj].0);
        } else {
            assert(keys[jj].0 != keys[ji].0);
        }
        assert(false);
    }
}

/// Law: records at different table positions never share a shortcode
/// alias — the shortcode key space is collision-free.
pub proof fn lemma_aliases_unique(t: EmojiTable, i: int, a: int, j: int, b: int)
    requires
        t.wf(),
        0 <= i < t.spec_records().len(),
        0 <= a < t.spec_records()[i].aliases@.len(),
        0 <= j < t.spec_records().len(),
        0 <= b < t.spec_records()[j].aliases@.len(),
        i != j,
    ensures
        t.spec_records()[i].aliases@[a]@ != t.spec_records()[j].aliases@[b]@,
{
    let keys = t.spec_shortcode_keys();
    if t.spec_records()[i].aliases@[a]@ == t.spec_records()[j].aliases@[b]@ {
        let k = t.spec_records()[i].aliases@[a]@;
        assert(has_key(keys, k, i));
        assert(has_key(keys, k, j));
        let ji = choose|ji: int| 0 <= ji < keys.len() && keys[ji] == (k, i);
        let jj = choose|jj: int| 0 <= jj < keys.len() && keys[jj] == (k, j);
        assert(ji != jj);
        if ji < jj {
            assert(keys[ji].0 != keys[jj].0);
        } else {
            assert(keys[jj].0 != keys[ji].0);
        }
        assert(false);
    }
}

/// Law: a lookup through any registered key of a record—its sequence
/// in any qualification form—agrees with the lookup through the fully
/// qualified sequence the record holds.
pub proof fn lemma_variation_lookup(t: EmojiTable, k: Seq<char>, e: Emoji)
    requires
        t.wf(),
        t.spec_get(k) == Some(e),
    ensures
        t.spec_get(e.emoji@) == Some(e),
{
    key_found_in_range(t.spec_unicode_keys(), k);
    match key_index(t.spec_unicode_keys(), k) {
        Some(v) => {
            let j = choose|j: int|
                0 <= j < t.spec_unicode_keys().len() && #[trigger] t.spec_unicode_keys()[j] == (
                k,
                v,
                );
            assert(0 <= v < t.spec_records().len());
            lemma_sequence_round_trip(t, v);
        },
        None => {},
    }
}

/// Law: an emoji without a skin-tone dimension has no skin-tone
/// family; one with the dimension has its family present.
pub proof fn lemma_family_presence(t: EmojiTable, e: Emoji)
    ensures
        t.spec_skin_tones(e) is None <==> e.skin_tone is None,
{
}

/// Law: a skin-tone family has 6 or 26 members; its default member
/// comes first; the member at offset `k` carries the tone of rank `k`
/// of the fixed enumeration order; and selecting the default member
/// and then the tone of any member yields exactly that member.
pub proof fn lemma_family_selection(t: EmojiTable, i: int, k: int)
    requires
        t.wf(),
        0 <= i < t.spec_records().len(),
        t.spec_records()[i].skin_tone matches Some(info) && info.0 <= k < info.0 + info.1,
    ensures
        t.spec_records()[i].skin_tone matches Some(info) ==> {
            let s = t.spec_records();
            let b = info.0 as int;
            let n = info.1 as int;
            &&& n == 6 || n == 26
            &&& t.spec_skin_tones(s[i]) matches Some(fam) && fam.len() == n
            &&& t.spec_with_tone(s[i], SkinTone::Default) == Some(s[b])
            &&& record_tone(s[b]) == Some(SkinTone::Default)
            &&& tone_rank(member_tone(s, k)) == k - b
            &&& t.spec_with_tone(s[b], member_tone(s, k)) == Some(s[k])
        },
{
    let s = t.spec_records();
    assert(tone_ok(s, i));
    match s[i].skin_tone {
        Some(info) => {
            let b = info.0 as int;
            let n = info.1 as int;
            let fam = s.subrange(b, b + n);
            assert(same_family(s, b, info.0, info.1));
            assert(same_family(s, k, info.0, info.1));
            assert(member_tone(s, b) == SkinTone::Default);
            assert(record_tone(s[b]) == Some(SkinTone::Default));
            assert(fam[0] == s[b]);
            // the default member's own family slice is the same slice
            assert(t.spec_skin_tones(s[i]) == Some(fam));
            assert(t.spec_skin_tones(s[b]) == Some(fam));
            // the first member already carries the default tone
            assert(find_tone(fam, SkinTone::Default) == Some(s[b]));
            // earlier members carry strictly smaller ranks, so the
            // member at k is the first with its tone
            let tk = member_tone(s, k);
            assert forall|j: int| 0 <= j < k - b implies record_tone(#[trigger] fam[j]) != Some(
                tk,
            ) by {
                assert(fam[j] == s[b + j]);
                assert(same_family(s, b + j, info.0, info.1));
                assert(tone_rank(member_tone(s, b + j)) < tone_rank(member_tone(s, k)));
            }
            assert(fam[k - b] == s[k]);
            assert(record_tone(fam[k - b]) == Some(tk));
            find_tone_of_first(fam, tk, k - b);
        },
        None => {},
    }
}

/// Empty result of a filter that nothing satisfies.
proof fn lemma_filter_absent(s: Seq<Emoji>, pred: spec_fn(Emoji) -> bool)
    requires
        forall|i: int| 0 <= i < s.len() ==> !pred(#[trigger] s[i]),
    ensures
        s.filter(pred) == Seq::<Emoji>::empty(),
    decreases s.len(),
{
    reveal(Seq::filter);
    if s.len() == 0 {
        assert(s.filter(pred) =~= Seq::<Emoji>::empty());
    } else {
        assert(forall|i: int|
            0 <= i < s.drop_last().len() ==> !pred(#[trigger] s.drop_last()[i]));
        lemma_filter_absent(s.drop_last(), pred);
        assert(s.filter(pred) =~= Seq::<Emoji>::empty());
    }
}

/// The concatenation of the group-filtered enumerations for the groups
/// of rank `0..=r`, in CLDR order.
pub open spec fn concat_up_to(s: Seq<Emoji>, r: int) -> Seq<Emoji>
    decreases r,
{
    if r <= 0 {
        s.filter(group_pred(crate::group::group_of_rank(0)))
    } else {
        concat_up_to(s, r - 1) + s.filter(group_pred(crate::group::group_of_rank(r)))
    }
}

/// How one appended record moves through the groupwise concatenation,
/// when its group rank is the largest so far.
proof fn lemma_concat_push(s0: Seq<Emoji>, x: Emoji, r: int)
    requires
        0 <= r <= 8,
        forall|i: int|
            0 <= i < s0.len() ==> crate::group::group_rank((#[trigger] s0[i]).group)
                <= crate::group::group_rank(x.group),
    ensures
        concat_up_to(s0.push(x), r) == if crate::group::group_rank(x.group) <= r
            && is_default_record(x) {
            concat_up_to(s0, r).push(x)
        } else {
            concat_up_to(s0, r)
        },
    decreases r,
{
    let s = s0.push(x);
    let rx = crate::group::group_rank(x.group);
    let g = crate::group::group_of_rank(r);
    reveal(Seq::filter);
    assert(s.drop_last() =~= s0);
    assert(s.last() == x);
    if r > 0 {
        lemma_concat_push(s0, x, r - 1);
    }
    if crate::group::group_rank(g) == rx {
        assert(g == x.group);
        if is_default_record(x) {
            assert(s.filter(group_pred(g)) == s0.filter(group_pred(g)).push(x));
            assert(concat_up_to(s, r) =~= concat_up_to(s0, r).push(x));
        } else {
            assert(s.filter(group_pred(g)) == s0.filter(group_pred(g)));
            assert(concat_up_to(s, r) =~= concat_up_to(s0, r));
        }
    } else {
        assert(!group_pred(g)(x));
        assert(s.filter(group_pred(g)) == s0.filter(group_pred(g)));
        if r > rx {
            // groups of larger rank have no records yet
            assert(forall|i: int| 0 <= i < s0.len() ==> !group_pred(g)(#[trigger] s0[i]));
            lemma_filter_absent(s0, group_pred(g));
            if is_default_record(x) {
                assert(concat_up_to(s, r) =~= concat_up_to(s0, r).push(x));
            } else {
                assert(concat_up_to(s, r) =~= concat_up_to(s0, r));
            }
        } else {
            assert(concat_up_to(s, r) =~= concat_up_to(s0, r));
        }
    }
}

/// For a record sequence whose group ranks never decrease, the
/// groupwise concatenation rebuilds the default enumeration.
proof fn lemma_partition_rec(s: Seq<Emoji>)
    requires
        groups_ordered(s),
    ensures
        concat_up_to(s, 8) == s.filter(default_pred()),
    decreases s.len(),
{
    reveal(Seq::filter);
    if s.len() == 0 {
        assert(concat_up_to(s, 8) =~= s.filter(default_pred())) by {
            lemma_filter_absent(s, default_pred());
            assert forall|r: int| 0 <= r <= 8 implies concat_up_to(s, r) =~= Seq::<
                Emoji,
            >::empty() by {
                lemma_concat_empty(s, r);
            }
        }
    } else {
        let s0 = s.drop_last();
        let x = s.last();
        assert(s =~= s0.push(x));
        assert(groups_ordered(s0)) by {
            assert forall|i: int, j: int| 0 <= i < j < s0.len() implies crate::group::group_rank(
                (#[trigger] s0[i]).group,
            ) <= crate::group::group_rank((#[trigger] s0[j]).group) by {
                assert(s0[i] == s[i]);
                assert(s0[j] == s[j]);
            }
        }
        lemma_partition_rec(s0);
        assert(forall|i: int|
            0 <= i < s0.len() ==> crate::group::group_rank((#[trigger] s0[i]).group)
                <= crate::group::group_rank(x.group)) by {
            assert forall|i: int| 0 <= i < s0.len() implies crate::group::group_rank(
                (#[trigger] s0[i]).group,
            ) <= crate::group::group_rank(x.group) by {
                assert(s0[i] == s[i]);
                assert(x == s[s.len() - 1]);
            }
        }
        lemma_concat_push(s0, x, 8);
        assert(concat_up_to(s0.push(x), 8) == concat_up_to(s, 8));
        if is_default_record(x) {
            assert(s.filter(default_pred()) == s0.filter(default_pred()).push(x));
        } else {
            assert(s.filter(default_pred()) == s0.filter(default_pred()));
        }
    }
}

/// An empty sequence has an empty groupwise concatenation.
proof fn lemma_concat_empty(s: Seq<Emoji>, r: int)
    requires
        s.len() == 0,
        0 <= r <= 8,
    ensures
        concat_up_to(s, r) == Seq::<Emoji>::empty(),
    decreases r,
{
    reveal(Seq::filter);
    if r > 0 {
        lemma_concat_empty(s, r - 1);
    }
    assert(concat_up_to(s, r) =~= Seq::<Emoji>::empty());
}

/// Law: group iteration partitions the default enumeration. The
/// per-group enumerations, concatenated in CLDR group order, equal the
/// full default enumeration, in the same order.
pub proof fn lemma_group_partition(t: EmojiTable)
    requires
        t.wf(),
    ensures
        t.spec_by_group(Group::SmileysAndEmotion) + t.spec_by_group(Group::PeopleAndBody)
            + t.spec_by_group(Group::AnimalsAndNature) + t.spec_by_group(Group::FoodAndDrink)
            + t.spec_by_group(Group::TravelAndPlaces) + t.spec_by_group(Group::Activities)
            + t.spec_by_group(Group::Objects) + t.spec_by_group(Group::Symbols) + t.spec_by_group(
            Group::Flags,
        ) == t.spec_iter(),
{
    let s = t.spec_records();
    lemma_partition_rec(s);
    assert(concat_up_to(s, 0) == t.spec_by_group(Group::SmileysAndEmotion));
    assert(concat_up_to(s, 1) == concat_up_to(s, 0) + t.spec_by_group(Group::PeopleAndBody));
    assert(concat_up_to(s, 2) == concat_up_to(s, 1) + t.spec_by_group(Group::AnimalsAndNature));
    assert(concat_up_to(s, 3) == concat_up_to(s, 2) + t.spec_by_group(Group::FoodAndDrink));
    assert(concat_up_to(s, 4) == concat_up_to(s, 3) + t.spec_by_group(Group::TravelAndPlaces));
    assert(concat_up_to(s, 5) == concat_up_to(s, 4) + t.spec_by_group(Group::Activities));
    assert(concat_up_to(s, 6) == concat_up_to(s, 5) + t.spec_by_group(Group::Objects));
    assert(concat_up_to(s, 7) == concat_up_to(s, 6) + t.spec_by_group(Group::Symbols));
    assert(concat_up_to(s, 8) == concat_up_to(s, 7) + t.spec_by_group(Group::Flags));
}

/// Scan a key vector for the first entry equal to `s` and return the
/// position it maps to.
fn scan_keys(keys: &Vec<(String, usize)>, s: &str) -> (r: Option<usize>)
    ensures
        match r {
            Some(i) => key_index(
                keys@.map_values(|p: (String, usize)| (p.0@, p.1 as int)),
                s@,
            ) == Some(i as int),
            None => key_index(keys@.map_values(|p: (String, usize)| (p.0@, p.1 as int)), s@) is None,
        },
{
    let ghost ks = keys@.map_values(|p: (String, usize)| (p.0@, p.1 as int));
    let q: String = s.to_owned();
    let n = keys.len();
    let mut i: usize = 0;
    while i < n
        invariant
            n == keys@.len(),
            ks == keys@.map_values(|p: (String, usize)| (p.0@, p.1 as int)),
            q@ == s@,
            i <= n,
            forall|j: int| 0 <= j < i ==> (#[trigger] ks[j]).0 != s@,
        decreases n - i,
    {
        if keys[i].0 == q {
            proof {
                assert(ks[i as int].0 == s@);
                key_index_of_first(ks, s@, i as int);
            }
            return Some(keys[i].1);
        }
        proof {
            assert(ks[i as int].0 == keys@[i as int].0@);
        }
        i = i + 1;
    }
    proof {
        key_index_of_none(ks, s@);
    }
    None
}

} // verus!
