//! Parsing the Unicode emoji test data: the text listing every emoji
//! sequence with its qualification status, version and CLDR name,
//! grouped by CLDR group and subgroup.
//!
//! Each data line has the shape
//! `code points ; status # emoji Eversion name`.
//! Only fully-qualified sequences become records; minimally qualified
//! and unqualified lines are attached to the preceding fully qualified
//! record as variations, and skin-tone variants are placed next to
//! their family's default member in fixed tone order.

use vstd::prelude::*;

use crate::chartext::all_dec;
use crate::chartext::all_hex;
use crate::chartext::char_from_u32;
use crate::chartext::dec_val;
use crate::chartext::chars_eq;
use crate::chartext::chars_of;
use crate::chartext::find_char_from;
use crate::chartext::first_pos;
use crate::chartext::hex_val;
use crate::chartext::is_prefix_of;
use crate::chartext::lemma_first_pos_is;
use crate::chartext::lemma_first_pos_sub;
use crate::chartext::is_scalar_value;
use crate::chartext::parse_dec_u32;
use crate::chartext::parse_hex_u32;
use crate::chartext::starts_with_at;
use crate::chartext::string_of_chars;
use crate::chartext::sub_chars;
use crate::chartext::trim_hi;
use crate::chartext::trim_lo;
use crate::chartext::trim_range;
use crate::group::Group;
use crate::tone;
use crate::tone::SkinTone;
use crate::tone::is_single_tone;
use crate::tone::modifier_of;
use crate::tone::spec_modifier_of;
use crate::tone::spec_pair;
use crate::version::UnicodeVersion;

verus! {

/// The qualification status of one parsed line.
#[derive(Debug, Clone, Copy, PartialEq, Eq, Hash, Structural)]
pub enum Status {
    FullyQualified,
    MinimallyQualified,
    Unqualified,
    Component,
}

/// Why a line or the whole data text was rejected.
#[derive(Debug, Clone, Copy, PartialEq, Eq, Structural)]
pub enum ParseError {
    /// No `;` separates the code points from the rest.
    ExpectedCodePoints,
    /// No `#` separates the status from the rest.
    ExpectedStatus,
    /// No Unicode version follows the emoji.
    ExpectedVersion,
    /// No name follows the Unicode version.
    ExpectedName,
    /// A code point is empty, not hexadecimal, or too large.
    NotHex,
    /// A code point value is no Unicode scalar value.
    NotScalarValue,
    /// The decoded code points differ from the shown emoji.
    EmojiMismatch,
    /// The status is none of the four known ones.
    UnrecognizedStatus,
    /// The version is not `E` followed by two decimal numbers.
    BadVersion,
    /// More than two skin-tone modifiers occur in one sequence.
    UnrecognizedToneCombination,
    /// A variant line arrived before any fully qualified record.
    MissingFullyQualified,
    /// A group header names no known CLDR group.
    UnknownGroup,
}

/// A parsed emoji record, before table construction.
#[derive(Debug)]
pub struct Emoji {
    pub emoji: String,
    pub name: String,
    pub unicode_version: UnicodeVersion,
    pub status: Status,
    pub skin_tones: usize,
    pub skin_tone: Option<SkinTone>,
    pub variations: Vec<String>,
}

/// A subgroup: its header name and its records in source order, with
/// skin-tone variants placed next to their default member.
#[derive(Debug)]
pub struct Subgroup {
    pub name: String,
    pub emojis: Vec<Emoji>,
}

/// One CLDR group's parsed content.
#[derive(Debug)]
pub struct GroupData {
    pub group: Group,
    pub subgroups: Vec<Subgroup>,
}

/// The skin-tone modifiers among a sequence's characters, in order.
pub open spec fn tone_seq(s: Seq<char>) -> Seq<SkinTone>
    decreases s.len(),
{
    if s.len() == 0 {
        Seq::empty()
    } else {
        tone_seq(s.drop_last()) + match spec_modifier_of(s.last()) {
            Some(t) => seq![t],
            None => Seq::<SkinTone>::empty(),
        }
    }
}

/// The tone a modifier combination denotes: none, one tone, or an
/// ordered pair (a same-tone pair collapsing to the single tone); more
/// than two modifiers are unrecognized.
pub open spec fn classify_tones(ts: Seq<SkinTone>) -> Option<Option<SkinTone>> {
    if ts.len() == 0 {
        Some(None)
    } else if ts.len() == 1 {
        Some(Some(ts[0]))
    } else if ts.len() == 2 {
        Some(Some(spec_pair(ts[0], ts[1])))
    } else {
        None
    }
}

/// The literal a qualification status is written as in the data.
pub open spec fn status_literal(st: Status) -> Seq<char> {
    match st {
        Status::FullyQualified => "fully-qualified"@,
        Status::MinimallyQualified => "minimally-qualified"@,
        Status::Unqualified => "unqualified"@,
        Status::Component => "component"@,
    }
}

/// How a parsed record's fields sit in its source line
/// `code points ; status # emoji Eversion name`: the status between
/// the first `;` and the first `#` after it, trimmed; then, in the
/// trimmed rest, the shown emoji up to the first blank, the version
/// `E<major>.<minor>` up to the second blank, and the trimmed name.
pub open spec fn line_fields(s: Seq<char>, e: Emoji) -> bool {
    let semi = first_pos(s, 0, ';');
    let hash = first_pos(s, semi + 1, '#');
    let t0 = trim_lo(s, semi + 1, hash);
    let t1 = trim_hi(s, t0, hash);
    let r0 = trim_lo(s, hash + 1, s.len() as int);
    let r1 = trim_hi(s, r0, s.len() as int);
    let s1 = first_pos(s, r0, ' ');
    let s2 = first_pos(s, s1 + 1, ' ');
    let d = first_pos(s, s1 + 2, '.');
    let n0 = trim_lo(s, s2 + 1, r1);
    let n1 = trim_hi(s, n0, r1);
    &&& semi < hash < s.len()
    &&& s.subrange(t0, t1) == status_literal(e.status)
    &&& s1 < s2 < r1
    &&& e.emoji@ == s.subrange(r0, s1)
    &&& s[s1 + 1] == 'E'
    &&& s1 + 2 <= d < s2
    &&& all_dec(s.subrange(s1 + 2, d))
    &&& e.unicode_version.major == dec_val(s.subrange(s1 + 2, d))
    &&& all_dec(s.subrange(d + 1, s2))
    &&& e.unicode_version.minor == dec_val(s.subrange(d + 1, s2))
    &&& e.name@ == s.subrange(n0, n1)
}

/// The characters the blank-separated hexadecimal code points of a
/// trimmed segment denote, when every chunk is a nonempty run of
/// hexadecimal digits whose value is a Unicode scalar value.
pub open spec fn decode_points(seg: Seq<char>) -> Option<Seq<char>>
    decreases seg.len(),
{
    let stop0 = first_pos(seg, 0, ' ');
    let stop = if 0 <= stop0 && stop0 < seg.len() {
        stop0
    } else {
        seg.len() as int
    };
    let ch = seg.subrange(0, stop);
    if !(ch.len() > 0 && all_hex(ch) && hex_val(ch) <= u32::MAX && is_scalar_value(
        hex_val(ch) as u32,
    )) {
        None
    } else {
        let c = (hex_val(ch) as u32) as char;
        if stop == seg.len() {
            Some(seq![c])
        } else {
            match decode_points(seg.subrange(stop + 1, seg.len() as int)) {
                Some(rest) => Some(seq![c] + rest),
                None => None,
            }
        }
    }
}

/// The decoded characters with a prefix put back in front.
pub open spec fn opt_prepend(pre: Seq<char>, o: Option<Seq<char>>) -> Option<Seq<char>> {
    match o {
        Some(r) => Some(pre + r),
        None => None,
    }
}

/// A well-formed version segment: an `E`, a nonempty decimal major up
/// to the first dot, a nonempty decimal minor after it, both fitting
/// in `u32`.
pub open spec fn version_wf(s: Seq<char>, lo: int, hi: int) -> bool {
    let d = first_pos(s, lo + 1, '.');
    &&& 0 <= lo < hi <= s.len()
    &&& s[lo] == 'E'
    &&& lo + 1 < d < hi
    &&& d + 1 < hi
    &&& all_dec(s.subrange(lo + 1, d))
    &&& dec_val(s.subrange(lo + 1, d)) <= u32::MAX
    &&& all_dec(s.subrange(d + 1, hi))
    &&& dec_val(s.subrange(d + 1, hi)) <= u32::MAX
}

/// A well-formed data line: the inputs on which `from_line` succeeds.
/// A `;` and then a `#` are present; the code-point column is a
/// nonempty run of hexadecimal scalar values that decode to exactly
/// the shown emoji column, with a recognized skin-tone combination;
/// the status column is one of the four known words; the version
/// column is well formed; and a name column follows it.
pub open spec fn line_ok(s: Seq<char>) -> bool {
    let semi = first_pos(s, 0, ';');
    let hash = first_pos(s, semi + 1, '#');
    let c0 = trim_lo(s, 0, semi);
    let c1 = trim_hi(s, c0, semi);
    let t0 = trim_lo(s, semi + 1, hash);
    let t1 = trim_hi(s, t0, hash);
    let r0 = trim_lo(s, hash + 1, s.len() as int);
    let r1 = trim_hi(s, r0, s.len() as int);
    let s1 = first_pos(s, r0, ' ');
    let s2 = first_pos(s, s1 + 1, ' ');
    &&& semi < s.len()
    &&& hash < s.len()
    &&& c0 < c1
    &&& s1 < r1
    &&& s2 < r1
    &&& match decode_points(s.subrange(c0, c1)) {
        Some(d) => d == s.subrange(r0, s1) && classify_tones(tone_seq(d)) is Some,
        None => false,
    }
    &&& version_wf(s, s1 + 1, s2)
    &&& (s.subrange(t0, t1) == "fully-qualified"@ || s.subrange(t0, t1) == "minimally-qualified"@
        || s.subrange(t0, t1) == "unqualified"@ || s.subrange(t0, t1) == "component"@)
}

/// The status column of a data line: between the first `;` and the
/// first `#` after it, trimmed.
pub open spec fn status_col(s: Seq<char>) -> Seq<char> {
    let semi = first_pos(s, 0, ';');
    let hash = first_pos(s, semi + 1, '#');
    let t0 = trim_lo(s, semi + 1, hash);
    let t1 = trim_hi(s, t0, hash);
    s.subrange(t0, t1)
}

/// The shown emoji column of a data line: after the `#`, trimmed, up
/// to the first blank.
pub open spec fn emoji_col(s: Seq<char>) -> Seq<char> {
    let semi = first_pos(s, 0, ';');
    let hash = first_pos(s, semi + 1, '#');
    let r0 = trim_lo(s, hash + 1, s.len() as int);
    let s1 = first_pos(s, r0, ' ');
    s.subrange(r0, s1)
}

/// The name column of a data line: after the version, trimmed.
pub open spec fn name_col(s: Seq<char>) -> Seq<char> {
    let semi = first_pos(s, 0, ';');
    let hash = first_pos(s, semi + 1, '#');
    let r0 = trim_lo(s, hash + 1, s.len() as int);
    let r1 = trim_hi(s, r0, s.len() as int);
    let s1 = first_pos(s, r0, ' ');
    let s2 = first_pos(s, s1 + 1, ' ');
    let n0 = trim_lo(s, s2 + 1, r1);
    let n1 = trim_hi(s, n0, r1);
    s.subrange(n0, n1)
}

/// The major version number a data line shows.
pub open spec fn version_major_col(s: Seq<char>) -> int {
    let semi = first_pos(s, 0, ';');
    let hash = first_pos(s, semi + 1, '#');
    let r0 = trim_lo(s, hash + 1, s.len() as int);
    let s1 = first_pos(s, r0, ' ');
    let d = first_pos(s, s1 + 2, '.');
    dec_val(s.subrange(s1 + 2, d))
}

/// The minor version number a data line shows.
pub open spec fn version_minor_col(s: Seq<char>) -> int {
    let semi = first_pos(s, 0, ';');
    let hash = first_pos(s, semi + 1, '#');
    let r0 = trim_lo(s, hash + 1, s.len() as int);
    let r1 = trim_hi(s, r0, s.len() as int);
    let s1 = first_pos(s, r0, ' ');
    let s2 = first_pos(s, s1 + 1, ' ');
    let d = first_pos(s, s1 + 2, '.');
    dec_val(s.subrange(d + 1, s2))
}

/// The record carries exactly the core fields the data line shows:
/// its sequence, name and version.
pub open spec fn record_of_line(ls: Seq<char>, e: Emoji) -> bool {
    &&& e.emoji@ == emoji_col(ls)
    &&& e.name@ == name_col(ls)
    &&& e.unicode_version.major == version_major_col(ls)
    &&& e.unicode_version.minor == version_minor_col(ls)
}

/// The text split into lines at each newline, every line with a
/// trailing carriage return dropped.
pub open spec fn text_lines(t: Seq<char>) -> Seq<Seq<char>>
    decreases t.len(),
{
    if t.len() == 0 {
        Seq::empty()
    } else {
        let e0 = first_pos(t, 0, '\n');
        let e = if 0 <= e0 && e0 <= t.len() {
            e0
        } else {
            t.len() as int
        };
        let raw = t.subrange(0, e);
        let ln = if raw.len() > 0 && raw[raw.len() - 1] == '\r' {
            raw.drop_last()
        } else {
            raw
        };
        if e >= t.len() {
            seq![ln]
        } else {
            seq![ln] + text_lines(t.subrange(e + 1, t.len() as int))
        }
    }
}

/// The header-walking state of the line scan: whether a recognized
/// group is open, whether it is the synthetic Component group, whether
/// a subgroup is open, and whether emoji lines are expected.
pub struct ScanState {
    pub group_some: bool,
    pub in_component: bool,
    pub in_sub: bool,
    pub in_run: bool,
}

/// The scan state before any line.
pub open spec fn scan_init() -> ScanState {
    ScanState { group_some: false, in_component: false, in_sub: false, in_run: false }
}

/// How one line moves the scan state: a blank line ends a run, a data
/// line leaves the headers as they are, a group header opens a group
/// (or the Component group), and a subgroup header under a group opens
/// a run.
pub open spec fn scan_step(st: ScanState, ls: Seq<char>) -> ScanState {
    if st.in_run && ls.len() == 0 {
        ScanState { group_some: st.group_some, in_component: st.in_component, in_sub: st.in_sub, in_run: false }
    } else if st.in_run {
        st
    } else if is_prefix_of("# group: "@, ls) {
        match spec_group_of_name(ls.subrange("# group: "@.len() as int, ls.len() as int)) {
            Some(found) => match found {
                Some(g) => ScanState {
                    group_some: true,
                    in_component: false,
                    in_sub: false,
                    in_run: false,
                },
                None => ScanState {
                    group_some: false,
                    in_component: true,
                    in_sub: false,
                    in_run: false,
                },
            },
            None => st,
        }
    } else if is_prefix_of("# subgroup: "@, ls) {
        if st.group_some || st.in_component {
            ScanState {
                group_some: st.group_some,
                in_component: st.in_component,
                in_sub: !st.in_component,
                in_run: true,
            }
        } else {
            st
        }
    } else {
        st
    }
}

/// The scan state before the line at index `i`.
pub open spec fn state_before(lines: Seq<Seq<char>>, i: int) -> ScanState
    decreases i,
{
    if i <= 0 {
        scan_init()
    } else {
        scan_step(state_before(lines, i - 1), lines[i - 1])
    }
}

/// The line at index `i` is an active fully qualified data line: it
/// stands in a run of a recognized group, and it is well formed with
/// the fully-qualified status.
pub open spec fn active_fq(lines: Seq<Seq<char>>, i: int) -> bool {
    let st = state_before(lines, i);
    &&& st.in_run
    &&& !st.in_component
    &&& lines[i].len() > 0
    &&& line_ok(lines[i])
    &&& status_col(lines[i]) == "fully-qualified"@
}

/// The line at index `i` is an active minimally qualified or
/// unqualified data line: a qualification variant standing in a run
/// of a recognized group.
pub open spec fn active_variant(lines: Seq<Seq<char>>, i: int) -> bool {
    let st = state_before(lines, i);
    &&& st.in_run
    &&& !st.in_component
    &&& lines[i].len() > 0
    &&& line_ok(lines[i])
    &&& (status_col(lines[i]) == "minimally-qualified"@ || status_col(lines[i])
        == "unqualified"@)
}

/// Some record of the list holds the line's sequence among its
/// variations.
pub open spec fn emojis_have_variation(emjs: Seq<Emoji>, ls: Seq<char>) -> bool {
    exists|k: int, v: int|
        0 <= k < emjs.len() && 0 <= v < emjs[k].variations@.len() && (
        #[trigger] emjs[k].variations@[v])@ == emoji_col(ls)
}

/// Some record of the subgroups holds the line's sequence among its
/// variations.
pub open spec fn subs_have_variation(subs: Seq<Subgroup>, ls: Seq<char>) -> bool {
    exists|s: int| 0 <= s < subs.len() && emojis_have_variation((#[trigger] subs[s]).emojis@, ls)
}

/// Some record of the parsed groups holds the line's sequence among
/// its variations.
pub open spec fn parsed_has_variation(d: Seq<GroupData>, ls: Seq<char>) -> bool {
    exists|g: int| 0 <= g < d.len() && subs_have_variation((#[trigger] d[g]).subgroups@, ls)
}

/// Some record of one of the three working stores holds the line's
/// sequence among its variations.
pub open spec fn bag_has_variation(
    d: Seq<GroupData>,
    subs: Seq<Subgroup>,
    emjs: Seq<Emoji>,
    ls: Seq<char>,
) -> bool {
    parsed_has_variation(d, ls) || subs_have_variation(subs, ls) || emojis_have_variation(
        emjs,
        ls,
    )
}

/// Some record of the list carries the line's core fields.
pub open spec fn emojis_have_core(emjs: Seq<Emoji>, ls: Seq<char>) -> bool {
    exists|k: int| 0 <= k < emjs.len() && record_of_line(ls, #[trigger] emjs[k])
}

/// Some record of the subgroups carries the line's core fields.
pub open spec fn subs_have_core(subs: Seq<Subgroup>, ls: Seq<char>) -> bool {
    exists|s: int| 0 <= s < subs.len() && emojis_have_core((#[trigger] subs[s]).emojis@, ls)
}

/// Some record of the parsed groups carries the line's core fields.
pub open spec fn parsed_has_core(d: Seq<GroupData>, ls: Seq<char>) -> bool {
    exists|g: int| 0 <= g < d.len() && subs_have_core((#[trigger] d[g]).subgroups@, ls)
}

/// Some record of one of the three working stores carries the line's
/// core fields.
pub open spec fn bag_has_core(
    d: Seq<GroupData>,
    subs: Seq<Subgroup>,
    emjs: Seq<Emoji>,
    ls: Seq<char>,
) -> bool {
    parsed_has_core(d, ls) || subs_have_core(subs, ls) || emojis_have_core(emjs, ls)
}

/// The record at `k0` survives, core fields and variations intact.
pub open spec fn kept_in(prior: Seq<Emoji>, now: Seq<Emoji>, k0: int) -> bool {
    exists|k: int|
        0 <= k < now.len() && same_core(#[trigger] now[k], prior[k0]) && now[k].variations@
            == prior[k0].variations@
}

/// The fields a record keeps from its source line: its sequence, its
/// name, its version and its status — everything but the skin-tone
/// links and variations filled in afterwards.
pub open spec fn same_core(a: Emoji, b: Emoji) -> bool {
    &&& a.emoji@ == b.emoji@
    &&& a.name@ == b.name@
    &&& a.unicode_version == b.unicode_version
    &&& a.status == b.status
}

/// A line's field layout carries over to any record with the same
/// core fields.
proof fn lemma_line_fields_core(ls: Seq<char>, a: Emoji, b: Emoji)
    requires
        line_fields(ls, a),
        same_core(b, a),
    ensures
        line_fields(ls, b),
{
}

/// `ls` is one full line of the text `t`: a maximal run between
/// newlines, with a trailing carriage return dropped.
pub open spec fn is_line_of(t: Seq<char>, ls: Seq<char>) -> bool {
    exists|a: int, b: int|
        #![trigger t.subrange(a, b)]
        {
            &&& 0 <= a <= b <= t.len()
            &&& (a == 0 || t[a - 1] == '\n')
            &&& (b == t.len() || t[b] == '\n')
            &&& forall|x: int| a <= x < b ==> t[x] != '\n'
            &&& (ls == t.subrange(a, b) || (a < b && t[b - 1] == '\r' && ls == t.subrange(
                a,
                b - 1,
            )))
        }
}

/// The record's core fields were read off one line of the text.
pub open spec fn record_sourced(t: Seq<char>, e: Emoji) -> bool {
    exists|ls: Seq<char>| is_line_of(t, ls) && #[trigger] line_fields(ls, e)
}

/// Every record of the subgroup was read off a line of the text.
pub open spec fn subgroup_sourced(t: Seq<char>, s: Subgroup) -> bool {
    forall|k: int| 0 <= k < s.emojis@.len() ==> record_sourced(t, #[trigger] s.emojis@[k])
}

/// Every record of every group was read off a line of the text.
pub open spec fn parsed_sourced(t: Seq<char>, d: Seq<GroupData>) -> bool {
    forall|g: int, s: int|
        0 <= g < d.len() && 0 <= s < (#[trigger] d[g]).subgroups@.len() ==> subgroup_sourced(
            t,
            #[trigger] d[g].subgroups@[s],
        )
}

/// The record keeps the core fields of one of the prior records, or of
/// the newly placed variant.
pub open spec fn core_from(e: Emoji, prior: Seq<Emoji>, variant: Emoji) -> bool {
    (exists|k0: int| 0 <= k0 < prior.len() && same_core(e, #[trigger] prior[k0])) || same_core(
        e,
        variant,
    )
}

/// The record's stored tone agrees with its sequence's modifiers; a
/// record without modifiers may also have been marked as its family's
/// default member.
pub open spec fn tone_consistent(e: Emoji) -> bool {
    match classify_tones(tone_seq(e.emoji@)) {
        Some(st) => e.skin_tone == st || (st is None && e.skin_tone == Some(SkinTone::Default)),
        None => false,
    }
}

/// What holds of every stored record: only fully qualified lines are
/// kept, and each record's tone agrees with its sequence.
pub open spec fn record_ok(e: Emoji) -> bool {
    tone_consistent(e) && e.status == Status::FullyQualified
}

/// Every record of the subgroup is in order.
pub open spec fn subgroup_ok(s: Subgroup) -> bool {
    forall|k: int| 0 <= k < s.emojis@.len() ==> record_ok(#[trigger] s.emojis@[k])
}

/// Every record of every group is in order.
pub open spec fn parsed_ok(d: Seq<GroupData>) -> bool {
    forall|g: int, s: int|
        0 <= g < d.len() && 0 <= s < (#[trigger] d[g]).subgroups@.len() ==> subgroup_ok(
            #[trigger] d[g].subgroups@[s],
        )
}

impl Emoji {
    /// The fully qualified sequence of this record.
    pub fn as_str(&self) -> (r: &str)
        ensures
            r@ == self.emoji@,
    {
        self.emoji.as_str()
    }

    /// The CLDR name of this record.
    pub fn name(&self) -> (r: &str)
        ensures
            r@ == self.name@,
    {
        self.name.as_str()
    }

    /// The Unicode version that introduced this sequence.
    pub fn unicode_version(&self) -> (r: &UnicodeVersion)
        ensures
            r == &self.unicode_version,
    {
        &self.unicode_version
    }

    /// The skin tone of this record, if any.
    pub fn skin_tone(&self) -> (r: Option<SkinTone>)
        ensures
            r == self.skin_tone,
    {
        self.skin_tone
    }

    /// How many members this record's skin-tone family counts; one for
    /// a record with no family.
    pub fn skin_tones(&self) -> (r: usize)
        ensures
            r == self.skin_tones,
    {
        self.skin_tones
    }

    /// The minimally qualified and unqualified forms of this sequence.
    pub fn variations(&self) -> (r: &Vec<String>)
        ensures
            r == &self.variations,
    {
        &self.variations
    }
}

/// The character a run of hexadecimal digits denotes.
pub fn parse_code_point(code_point: &str) -> (r: Result<char, ParseError>)
    ensures
        ({
            let s = code_point@;
            match r {
                Ok(c) => s.len() > 0 && all_hex(s) && hex_val(s) <= u32::MAX && c as u32 == hex_val(
                    s,
                ) && is_scalar_value(hex_val(s) as u32),
                Err(ParseError::NotHex) => s.len() == 0 || !all_hex(s) || hex_val(s) > u32::MAX,
                Err(ParseError::NotScalarValue) => s.len() > 0 && all_hex(s) && hex_val(s)
                    <= u32::MAX && !is_scalar_value(hex_val(s) as u32),
                Err(_) => false,
            }
        }),
{
    let v = chars_of(code_point);
    proof {
        assert(v@.subrange(0, v@.len() as int) =~= code_point@);
    }
    match parse_hex_u32(&v, 0, v.len()) {
        Some(u) => match char_from_u32(u) {
            Some(c) => Ok(c),
            None => Err(ParseError::NotScalarValue),
        },
        None => Err(ParseError::NotHex),
    }
}

/// The version a segment `E<major>.<minor>` denotes: an `E`, then the
/// major number up to the first dot, then the minor number. Succeeds
/// exactly on well-formed version segments.
fn parse_version(line: &Vec<char>, lo: usize, hi: usize) -> (r: Result<UnicodeVersion, ParseError>)
    requires
        lo <= hi <= line@.len(),
    ensures
        r is Ok <==> version_wf(line@, lo as int, hi as int),
        r matches Ok(v) ==> {
            let d = first_pos(line@, lo + 1, '.');
            &&& v.major == dec_val(line@.subrange(lo + 1, d))
            &&& v.minor == dec_val(line@.subrange(d + 1, hi as int))
        },
{
    if lo >= hi || line[lo] != 'E' {
        return Err(ParseError::BadVersion);
    }
    let dot = match find_char_from(line, lo + 1, '.') {
        Some(i) => {
            if i < hi {
                i
            } else {
                proof {
                    assert(!version_wf(line@, lo as int, hi as int));
                }
                return Err(ParseError::BadVersion);
            }
        },
        None => {
            proof {
                assert(!version_wf(line@, lo as int, hi as int));
            }
            return Err(ParseError::BadVersion);
        },
    };
    let major = match parse_dec_u32(line, lo + 1, dot) {
        Some(x) => x,
        None => {
            proof {
                assert(first_pos(line@, lo + 1, '.') == dot);
                assert(!version_wf(line@, lo as int, hi as int));
            }
            return Err(ParseError::BadVersion);
        },
    };
    let minor = match parse_dec_u32(line, dot + 1, hi) {
        Some(x) => x,
        None => {
            proof {
                assert(first_pos(line@, lo + 1, '.') == dot);
                assert(!version_wf(line@, lo as int, hi as int));
            }
            return Err(ParseError::BadVersion);
        },
    };
    let v = UnicodeVersion::new(major, minor);
    proof {
        assert(first_pos(line@, lo + 1, '.') == dot);
        assert(version_wf(line@, lo as int, hi as int));
        assert(v.major == dec_val(line@.subrange(lo + 1, dot as int)) && v.minor == dec_val(
            line@.subrange(dot + 1, hi as int),
        ));
    }
    Ok(v)
}

impl Emoji {
    /// One data line parsed into a fresh record: decode the code
    /// points, check them against the shown emoji, read status,
    /// version and name, and classify the skin-tone modifiers.
    /// Succeeds exactly on well-formed data lines.
    fn from_line(line: &Vec<char>) -> (r: Result<Emoji, ParseError>)
        ensures
            r is Ok <==> line_ok(line@),
            r matches Ok(e) ==> {
                &&& classify_tones(tone_seq(e.emoji@)) == Some(e.skin_tone)
                &&& e.skin_tones == 1
                &&& e.variations@.len() == 0
                &&& line_fields(line@, e)
            },
    {
        let n = line.len();
        let semi = match find_char_from(line, 0, ';') {
            Some(i) => i,
            None => {
                proof {
                    assert(!line_ok(line@));
                }
                return Err(ParseError::ExpectedCodePoints);
            },
        };
        let hash = match find_char_from(line, semi + 1, '#') {
            Some(i) => i,
            None => {
                proof {
                    assert(!line_ok(line@));
                }
                return Err(ParseError::ExpectedStatus);
            },
        };
        // the decoded code points
        let (c0, c1) = trim_range(line, 0, semi);
        if c0 == c1 {
            proof {
                assert(!line_ok(line@));
            }
            return Err(ParseError::NotHex);
        }
        let seg = sub_chars(line, c0, c1);
        let nseg = seg.len();
        let mut echars: Vec<char> = Vec::new();
        let mut pos: usize = 0;
        proof {
            assert(seg@.subrange(0, nseg as int) =~= seg@);
            match decode_points(seg@) {
                Some(r0) => {
                    assert(echars@ + r0 =~= r0);
                },
                None => {},
            }
        }
        loop
            invariant_except_break
                decode_points(seg@) == opt_prepend(
                    echars@,
                    decode_points(seg@.subrange(pos as int, nseg as int)),
                ),
            invariant
                semi as int == first_pos(line@, 0, ';'),
                semi < line@.len(),
                c0 as int == trim_lo(line@, 0, semi as int),
                c1 as int == trim_hi(line@, c0 as int, semi as int),
                c0 < c1 <= line@.len(),
                seg@ == line@.subrange(c0 as int, c1 as int),
                nseg == seg@.len(),
                pos <= nseg,
            ensures
                decode_points(seg@) == Some(echars@),
            decreases nseg - pos,
        {
            let ghost suffix = seg@.subrange(pos as int, nseg as int);
            let stop = match find_char_from(&seg, pos, ' ') {
                Some(i) => i,
                None => nseg,
            };
            proof {
                lemma_first_pos_sub(seg@, pos as int, 0, ' ');
                assert(suffix.subrange(0, stop - pos) =~= seg@.subrange(pos as int, stop as int));
            }
            let u = match parse_hex_u32(&seg, pos, stop) {
                Some(u) => u,
                None => {
                    proof {
                        assert(decode_points(suffix) is None);
                        assert(!line_ok(line@));
                    }
                    return Err(ParseError::NotHex);
                },
            };
            let c = match char_from_u32(u) {
                Some(c) => c,
                None => {
                    proof {
                        assert(decode_points(suffix) is None);
                        assert(!line_ok(line@));
                    }
                    return Err(ParseError::NotScalarValue);
                },
            };
            let ghost old_echars = echars@;
            echars.push(c);
            proof {
                let ch = suffix.subrange(0, stop - pos);
                vstd::utf8::char_u32_cast(c, u);
                assert((hex_val(ch) as u32) as char == c);
            }
            if stop >= nseg {
                proof {
                    assert(decode_points(suffix) == Some(seq![c]));
                    assert(old_echars + seq![c] =~= echars@);
                }
                break;
            }
            proof {
                let rest = seg@.subrange(stop as int + 1, nseg as int);
                assert(suffix.subrange(stop - pos + 1, suffix.len() as int) =~= rest);
                match decode_points(rest) {
                    Some(r2) => {
                        assert(decode_points(suffix) == Some(seq![c] + r2));
                        assert(old_echars + (seq![c] + r2) =~= echars@ + r2);
                    },
                    None => {
                        assert(decode_points(suffix) is None);
                    },
                }
            }
            pos = stop + 1;
        }
        // the shown emoji, version and name after the `#`
        let (r0, r1) = trim_range(line, hash + 1, n);
        let s1 = match find_char_from(line, r0, ' ') {
            Some(i) => {
                if i < r1 {
                    i
                } else {
                    proof {
                        assert(!line_ok(line@));
                    }
                    return Err(ParseError::ExpectedVersion);
                }
            },
            None => {
                proof {
                    assert(!line_ok(line@));
                }
                return Err(ParseError::ExpectedVersion);
            },
        };
        let s2 = match find_char_from(line, s1 + 1, ' ') {
            Some(i) => {
                if i < r1 {
                    i
                } else {
                    proof {
                        assert(!line_ok(line@));
                    }
                    return Err(ParseError::ExpectedName);
                }
            },
            None => {
                proof {
                    assert(!line_ok(line@));
                }
                return Err(ParseError::ExpectedName);
            },
        };
        let actual = sub_chars(line, r0, s1);
        if !chars_eq(&echars, &actual) {
            proof {
                assert(!line_ok(line@));
            }
            return Err(ParseError::EmojiMismatch);
        }
        let unicode_version = match parse_version(line, s1 + 1, s2) {
            Ok(v) => v,
            Err(e) => {
                proof {
                    assert(!line_ok(line@));
                }
                return Err(e);
            },
        };
        // the status between `;` and `#`
        let (t0, t1) = trim_range(line, semi + 1, hash);
        let stat = sub_chars(line, t0, t1);
        let status = if chars_eq(&stat, &chars_of("fully-qualified")) {
            Status::FullyQualified
        } else if chars_eq(&stat, &chars_of("minimally-qualified")) {
            Status::MinimallyQualified
        } else if chars_eq(&stat, &chars_of("unqualified")) {
            Status::Unqualified
        } else if chars_eq(&stat, &chars_of("component")) {
            Status::Component
        } else {
            proof {
                assert(!line_ok(line@));
            }
            return Err(ParseError::UnrecognizedStatus);
        };
        // the trimmed name
        let (n0, n1) = trim_range(line, s2 + 1, r1);
        let name_chars = sub_chars(line, n0, n1);
        let name = string_of_chars(&name_chars);
        // the skin-tone modifiers of the sequence, classified
        let m = echars.len();
        let mut tones: Vec<SkinTone> = Vec::new();
        let mut i: usize = 0;
        while i < m
            invariant
                m == echars@.len(),
                i <= m,
                tones@ == tone_seq(echars@.subrange(0, i as int)),
                forall|j: int| 0 <= j < tones@.len() ==> is_single_tone(#[trigger] tones@[j]),
            decreases m - i,
        {
            let ghost pre = echars@.subrange(0, i as int);
            let ghost pre1 = echars@.subrange(0, i as int + 1);
            proof {
                assert(pre1.drop_last() =~= pre);
                assert(pre1.last() == echars@[i as int]);
            }
            match modifier_of(echars[i]) {
                Some(t) => {
                    tones.push(t);
                    proof {
                        assert(tones@ =~= tone_seq(pre) + seq![t]);
                    }
                },
                None => {
                    proof {
                        assert(tones@ =~= tone_seq(pre) + Seq::<SkinTone>::empty());
                    }
                },
            }
            i = i + 1;
        }
        proof {
            assert(echars@.subrange(0, m as int) =~= echars@);
        }
        let skin_tone: Option<SkinTone> = if tones.len() == 0 {
            None
        } else if tones.len() == 1 {
            Some(tones[0])
        } else if tones.len() == 2 {
            Some(tone::pair(tones[0], tones[1]))
        } else {
            proof {
                assert(classify_tones(tone_seq(echars@)) is None);
                assert(!line_ok(line@));
            }
            return Err(ParseError::UnrecognizedToneCombination);
        };
        let emoji = string_of_chars(&echars);
        let e = Emoji {
            emoji,
            name,
            unicode_version,
            status,
            skin_tones: 1,
            skin_tone,
            variations: Vec::new(),
        };
        proof {
            assert(line_fields(line@, e));
            assert(line_ok(line@));
        }
        Ok(e)
    }
}

/// A record that can anchor a family: no tone, or the default tone.
pub open spec fn defaultish(e: Emoji) -> bool {
    e.skin_tone is None || e.skin_tone == Some(SkinTone::Default)
}

/// A record's tone sorts before the given tone: absent tones first,
/// then by tone rank — the order members keep within a family.
pub open spec fn spec_tone_sorts_before(e: Emoji, t: SkinTone) -> bool {
    match e.skin_tone {
        None => true,
        Some(x) => crate::tone::tone_rank(x) < crate::tone::tone_rank(t),
    }
}

/// A copy of a vector of strings.
fn clone_strings(v: &Vec<String>) -> (r: Vec<String>)
    ensures
        r@ == v@,
{
    let mut out: Vec<String> = Vec::new();
    let n = v.len();
    let mut i: usize = 0;
    while i < n
        invariant
            n == v@.len(),
            i <= n,
            out@ == v@.subrange(0, i as int),
        decreases n - i,
    {
        out.push(v[i].clone());
        proof {
            assert(out@ =~= v@.subrange(0, i as int + 1));
        }
        i = i + 1;
    }
    proof {
        assert(v@.subrange(0, n as int) =~= v@);
    }
    out
}

/// The last record that can anchor a family, if any.
fn find_last_default(emojis: &Vec<Emoji>) -> (r: Option<usize>)
    ensures
        match r {
            Some(i) => i < emojis@.len() && defaultish(emojis@[i as int]) && forall|k: int|
                i < k < emojis@.len() ==> !defaultish(#[trigger] emojis@[k]),
            None => forall|k: int| 0 <= k < emojis@.len() ==> !defaultish(#[trigger] emojis@[k]),
        },
{
    let m = emojis.len();
    let mut j: usize = m;
    while j > 0
        invariant
            j <= m,
            m == emojis@.len(),
            forall|k: int| j <= k < m ==> !defaultish(#[trigger] emojis@[k]),
        decreases j,
    {
        let e = &emojis[j - 1];
        let isdef = match e.skin_tone {
            None => true,
            Some(t) => t == SkinTone::Default,
        };
        if isdef {
            return Some(j - 1);
        }
        j = j - 1;
    }
    None
}

/// Whether a record's tone sorts before the given tone.
fn tone_sorts_before(e: &Emoji, t: SkinTone) -> (r: bool)
    ensures
        r == spec_tone_sorts_before(*e, t),
{
    match e.skin_tone {
        None => true,
        Some(x) => x.rank() < t.rank(),
    }
}

/// Place a skin-tone variant: mark the nearest preceding record that
/// can anchor a family as the default member, grow its family count,
/// and insert the variant among its siblings in tone order.
fn attach_variant(emojis: &mut Vec<Emoji>, variant: Emoji) -> (r: Result<(), ParseError>)
    requires
        forall|k: int| 0 <= k < old(emojis)@.len() ==> record_ok(#[trigger] old(emojis)@[k]),
        record_ok(variant),
        variant.skin_tone is Some,
    ensures
        forall|k: int| 0 <= k < final(emojis)@.len() ==> record_ok(#[trigger] final(emojis)@[k]),
        forall|k: int|
            0 <= k < final(emojis)@.len() ==> core_from(
                #[trigger] final(emojis)@[k],
                old(emojis)@,
                variant,
            ),
        forall|k0: int|
            0 <= k0 < old(emojis)@.len() ==> #[trigger] kept_in(old(emojis)@, final(emojis)@, k0),
        r is Ok ==> final(emojis)@.len() == old(emojis)@.len() + 1,
        r is Ok ==> exists|k: int|
            0 <= k < final(emojis)@.len() && same_core(#[trigger] final(emojis)@[k], variant),
{
    let i = match find_last_default(emojis) {
        Some(i) => i,
        None => {
            proof {
                assert forall|k: int| 0 <= k < emojis@.len() implies core_from(
                    #[trigger] emojis@[k],
                    old(emojis)@,
                    variant,
                ) by {
                    assert(same_core(emojis@[k], old(emojis)@[k]));
                }
                assert forall|k0: int| 0 <= k0 < old(emojis)@.len() implies #[trigger] kept_in(
                    old(emojis)@,
                    emojis@,
                    k0,
                ) by {
                    assert(same_core(emojis@[k0], old(emojis)@[k0]) && emojis@[k0].variations@
                        == old(emojis)@[k0].variations@);
                }
            }
            return Err(ParseError::MissingFullyQualified);
        },
    };
    let tone = match variant.skin_tone {
        Some(t) => t,
        None => {
            proof {
                assert(false);
            }
            SkinTone::Default
        },
    };
    let cnt = emojis[i].skin_tones;
    let updated = Emoji {
        emoji: emojis[i].emoji.clone(),
        name: emojis[i].name.clone(),
        unicode_version: emojis[i].unicode_version,
        status: emojis[i].status,
        skin_tones: if cnt < usize::MAX {
            cnt + 1
        } else {
            cnt
        },
        skin_tone: Some(SkinTone::Default),
        variations: clone_strings(&emojis[i].variations),
    };
    proof {
        assert(record_ok(emojis@[i as int]));
        assert(defaultish(emojis@[i as int]));
        assert(updated.emoji@ == emojis@[i as int].emoji@);
        assert(record_ok(updated));
    }
    emojis.set(i, updated);
    proof {
        assert forall|k: int| 0 <= k < emojis@.len() implies record_ok(
            #[trigger] emojis@[k],
        ) by {
            if k != i {
                assert(emojis@[k] == old(emojis)@[k]);
            }
        }
    }
    let ghost after_set = emojis@;
    let len0 = emojis.len();
    let mut j: usize = i + 1;
    while j < len0 && tone_sorts_before(&emojis[j], tone)
        invariant
            i < j <= len0,
            len0 == emojis@.len(),
            emojis@ == after_set,
            forall|k: int| 0 <= k < emojis@.len() ==> record_ok(#[trigger] emojis@[k]),
        decreases len0 - j,
    {
        j = j + 1;
    }
    let ghost before = emojis@;
    emojis.insert(j, variant);
    proof {
        assert forall|k: int| 0 <= k < emojis@.len() implies record_ok(
            #[trigger] emojis@[k],
        ) by {
            assert(emojis@ == before.insert(j as int, variant));
            if k < j {
                assert(emojis@[k] == before[k]);
            } else if k == j {
                assert(emojis@[k] == variant);
            } else {
                assert(emojis@[k] == before[k - 1]);
            }
        }
        assert forall|k: int| 0 <= k < emojis@.len() implies core_from(
            #[trigger] emojis@[k],
            old(emojis)@,
            variant,
        ) by {
            assert(emojis@ == before.insert(j as int, variant));
            assert(before == old(emojis)@.update(i as int, updated));
            if k < j {
                assert(emojis@[k] == before[k]);
                if k == i {
                    assert(same_core(emojis@[k], old(emojis)@[i as int]));
                } else {
                    assert(emojis@[k] == old(emojis)@[k]);
                    assert(same_core(emojis@[k], old(emojis)@[k]));
                }
            } else if k == j {
                assert(same_core(emojis@[k], variant));
            } else {
                assert(emojis@[k] == before[k - 1]);
                if k - 1 == i {
                    assert(same_core(emojis@[k], old(emojis)@[i as int]));
                } else {
                    assert(emojis@[k] == old(emojis)@[k - 1]);
                    assert(same_core(emojis@[k], old(emojis)@[k - 1]));
                }
            }
        }
        assert forall|k0: int| 0 <= k0 < old(emojis)@.len() implies #[trigger] kept_in(
            old(emojis)@,
            emojis@,
            k0,
        ) by {
            assert(emojis@ == before.insert(j as int, variant));
            assert(before == old(emojis)@.update(i as int, updated));
            if k0 == i {
                assert(emojis@[i as int] == updated);
                assert(same_core(emojis@[i as int], old(emojis)@[k0]) && emojis@[i as int].variations@
                    == old(emojis)@[k0].variations@);
            } else if k0 < j {
                assert(emojis@[k0] == old(emojis)@[k0]);
                assert(same_core(emojis@[k0], old(emojis)@[k0]) && emojis@[k0].variations@
                    == old(emojis)@[k0].variations@);
            } else {
                assert(emojis@[k0 + 1] == old(emojis)@[k0]);
                assert(same_core(emojis@[k0 + 1], old(emojis)@[k0]) && emojis@[k0 + 1].variations@
                    == old(emojis)@[k0].variations@);
            }
        }
        assert(same_core(emojis@[j as int], variant));
    }
    Ok(())
}

/// The CLDR group a header name denotes; the synthetic Component
/// group is recognized but excluded from tables.
pub open spec fn spec_group_of_name(s: Seq<char>) -> Option<Option<Group>> {
    if s == "Smileys & Emotion"@ {
        Some(Some(Group::SmileysAndEmotion))
    } else if s == "People & Body"@ {
        Some(Some(Group::PeopleAndBody))
    } else if s == "Component"@ {
        Some(None)
    } else if s == "Animals & Nature"@ {
        Some(Some(Group::AnimalsAndNature))
    } else if s == "Food & Drink"@ {
        Some(Some(Group::FoodAndDrink))
    } else if s == "Travel & Places"@ {
        Some(Some(Group::TravelAndPlaces))
    } else if s == "Activities"@ {
        Some(Some(Group::Activities))
    } else if s == "Objects"@ {
        Some(Some(Group::Objects))
    } else if s == "Symbols"@ {
        Some(Some(Group::Symbols))
    } else if s == "Flags"@ {
        Some(Some(Group::Flags))
    } else {
        None
    }
}

/// The CLDR group a header name denotes.
fn resolve_group(name: &Vec<char>) -> (r: Option<Option<Group>>)
    ensures
        r == spec_group_of_name(name@),
{
    if chars_eq(name, &chars_of("Smileys & Emotion")) {
        Some(Some(Group::SmileysAndEmotion))
    } else if chars_eq(name, &chars_of("People & Body")) {
        Some(Some(Group::PeopleAndBody))
    } else if chars_eq(name, &chars_of("Component")) {
        Some(None)
    } else if chars_eq(name, &chars_of("Animals & Nature")) {
        Some(Some(Group::AnimalsAndNature))
    } else if chars_eq(name, &chars_of("Food & Drink")) {
        Some(Some(Group::FoodAndDrink))
    } else if chars_eq(name, &chars_of("Travel & Places")) {
        Some(Some(Group::TravelAndPlaces))
    } else if chars_eq(name, &chars_of("Activities")) {
        Some(Some(Group::Activities))
    } else if chars_eq(name, &chars_of("Objects")) {
        Some(Some(Group::Objects))
    } else if chars_eq(name, &chars_of("Symbols")) {
        Some(Some(Group::Symbols))
    } else if chars_eq(name, &chars_of("Flags")) {
        Some(Some(Group::Flags))
    } else {
        None
    }
}

/// The line the scan cuts out at position `a` is the line at index
/// `li`, and the rest of the text holds the lines after it.
proof fn lemma_line_alignment(
    t: Seq<char>,
    lines: Seq<Seq<char>>,
    li: int,
    a: int,
    b: int,
    ln: Seq<char>,
)
    requires
        lines == text_lines(t),
        0 <= a <= b <= t.len(),
        a < t.len(),
        forall|x: int| a <= x < b ==> t[x] != '\n',
        b == t.len() || t[b] == '\n',
        text_lines(t.subrange(a, t.len() as int)) == lines.subrange(li, lines.len() as int),
        0 <= li <= lines.len(),
        (ln == t.subrange(a, b) && !(b - a > 0 && t[b - 1] == '\r')) || (b - a > 0 && t[b - 1]
            == '\r' && ln == t.subrange(a, b - 1)),
    ensures
        li < lines.len(),
        lines[li] == ln,
        b < t.len() ==> text_lines(t.subrange(b + 1, t.len() as int)) == lines.subrange(
            li + 1,
            lines.len() as int,
        ),
        b >= t.len() ==> lines.len() == li + 1,
{
    let suffix = t.subrange(a, t.len() as int);
    assert forall|x: int| 0 <= x < b - a implies suffix[x] != '\n' by {
        assert(suffix[x] == t[a + x]);
    }
    if b < t.len() {
        assert(suffix[b - a] == t[b]);
    }
    lemma_first_pos_is(suffix, 0, '\n', b - a);
    assert(suffix.subrange(0, b - a) =~= t.subrange(a, b));
    assert(suffix.len() > 0);
    if b - a > 0 {
        assert(t.subrange(a, b)[b - a - 1] == t[b - 1]);
    }
    if b - a > 0 && t[b - 1] == '\r' {
        assert(t.subrange(a, b).drop_last() =~= t.subrange(a, b - 1));
    }
    if b >= t.len() {
        assert(text_lines(suffix) == seq![ln]);
        assert(lines.len() == li + 1);
        assert(lines[li] == lines.subrange(li, lines.len() as int)[0]);
    } else {
        assert(suffix.subrange((b - a) + 1, suffix.len() as int) =~= t.subrange(
            b + 1,
            t.len() as int,
        ));
        assert(text_lines(suffix) == seq![ln] + text_lines(t.subrange(b + 1, t.len() as int)));
        assert(lines[li] == lines.subrange(li, lines.len() as int)[0]);
        assert(text_lines(suffix).len() == lines.len() - li);
        assert forall|x: int|
            0 <= x < lines.len() - li - 1 implies #[trigger] text_lines(
            t.subrange(b + 1, t.len() as int),
        )[x] == lines[li + 1 + x] by {
            assert(text_lines(suffix)[x + 1] == lines.subrange(li, lines.len() as int)[x + 1]);
        }
        assert(text_lines(t.subrange(b + 1, t.len() as int)) =~= lines.subrange(
            li + 1,
            lines.len() as int,
        ));
    }
}

/// Closing the open subgroup and group moves every stored record into
/// the finished groups.
proof fn lemma_bag_close(
    out0: Seq<GroupData>,
    subs0: Seq<Subgroup>,
    emjs0: Seq<Emoji>,
    out1: Seq<GroupData>,
    subs1: Seq<Subgroup>,
    was_sub: bool,
    had_group: bool,
    ls: Seq<char>,
)
    requires
        was_sub ==> subs1.len() == subs0.len() + 1 && (forall|s: int|
            0 <= s < subs0.len() ==> subs1[s] == subs0[s]) && subs1[subs1.len() - 1].emojis@
            == emjs0,
        !was_sub ==> subs1 == subs0 && emjs0.len() == 0,
        had_group ==> out1.len() == out0.len() + 1 && (forall|g: int|
            0 <= g < out0.len() ==> out1[g] == out0[g]) && out1[out1.len() - 1].subgroups@ == subs1,
        !had_group ==> out1 == out0 && subs0.len() == 0 && emjs0.len() == 0,
        bag_has_core(out0, subs0, emjs0, ls),
    ensures
        parsed_has_core(out1, ls),
{
    if parsed_has_core(out0, ls) {
        let g2 = choose|g2: int|
            0 <= g2 < out0.len() && subs_have_core((#[trigger] out0[g2]).subgroups@, ls);
        assert(out1[g2] == out0[g2]);
        assert(parsed_has_core(out1, ls));
    } else if subs_have_core(subs0, ls) {
        assert(had_group);
        let s2 = choose|s2: int|
            0 <= s2 < subs0.len() && emojis_have_core((#[trigger] subs0[s2]).emojis@, ls);
        assert(subs1[s2] == subs0[s2]);
        assert(subs_have_core(subs1, ls));
        assert(out1[out1.len() - 1].subgroups@ == subs1);
        assert(parsed_has_core(out1, ls));
    } else {
        assert(emojis_have_core(emjs0, ls));
        assert(was_sub);
        assert(had_group);
        assert(subs1[subs1.len() - 1].emojis@ == emjs0);
        assert(subs_have_core(subs1, ls));
        assert(out1[out1.len() - 1].subgroups@ == subs1);
        assert(parsed_has_core(out1, ls));
    }
}

/// Closing the open subgroup and group moves every stored variation
/// into the finished groups.
proof fn lemma_bag_close_variation(
    out0: Seq<GroupData>,
    subs0: Seq<Subgroup>,
    emjs0: Seq<Emoji>,
    out1: Seq<GroupData>,
    subs1: Seq<Subgroup>,
    was_sub: bool,
    had_group: bool,
    ls: Seq<char>,
)
    requires
        was_sub ==> subs1.len() == subs0.len() + 1 && (forall|s: int|
            0 <= s < subs0.len() ==> subs1[s] == subs0[s]) && subs1[subs1.len() - 1].emojis@
            == emjs0,
        !was_sub ==> subs1 == subs0 && emjs0.len() == 0,
        had_group ==> out1.len() == out0.len() + 1 && (forall|g: int|
            0 <= g < out0.len() ==> out1[g] == out0[g]) && out1[out1.len() - 1].subgroups@ == subs1,
        !had_group ==> out1 == out0 && subs0.len() == 0 && emjs0.len() == 0,
        bag_has_variation(out0, subs0, emjs0, ls),
    ensures
        parsed_has_variation(out1, ls),
{
    if parsed_has_variation(out0, ls) {
        let g2 = choose|g2: int|
            0 <= g2 < out0.len() && subs_have_variation((#[trigger] out0[g2]).subgroups@, ls);
        assert(out1[g2] == out0[g2]);
        assert(parsed_has_variation(out1, ls));
    } else if subs_have_variation(subs0, ls) {
        assert(had_group);
        let s2 = choose|s2: int|
            0 <= s2 < subs0.len() && emojis_have_variation((#[trigger] subs0[s2]).emojis@, ls);
        assert(subs1[s2] == subs0[s2]);
        assert(subs_have_variation(subs1, ls));
        assert(out1[out1.len() - 1].subgroups@ == subs1);
        assert(parsed_has_variation(out1, ls));
    } else {
        assert(emojis_have_variation(emjs0, ls));
        assert(was_sub);
        assert(had_group);
        assert(subs1[subs1.len() - 1].emojis@ == emjs0);
        assert(subs_have_variation(subs1, ls));
        assert(out1[out1.len() - 1].subgroups@ == subs1);
        assert(parsed_has_variation(out1, ls));
    }
}

/// Appending a record keeps every placed line placed.
proof fn lemma_bag_grow_push(
    out: Seq<GroupData>,
    subs: Seq<Subgroup>,
    pre: Seq<Emoji>,
    now: Seq<Emoji>,
    lines: Seq<Seq<char>>,
    li: int,
)
    requires
        now.len() == pre.len() + 1,
        forall|k: int| 0 <= k < pre.len() ==> now[k] == pre[k],
        forall|i: int|
            0 <= i < li && #[trigger] active_fq(lines, i) ==> bag_has_core(
                out,
                subs,
                pre,
                lines[i],
            ),
        forall|i: int|
            0 <= i < li && #[trigger] active_variant(lines, i) ==> bag_has_variation(
                out,
                subs,
                pre,
                lines[i],
            ),
    ensures
        forall|i: int|
            0 <= i < li && #[trigger] active_fq(lines, i) ==> bag_has_core(
                out,
                subs,
                now,
                lines[i],
            ),
        forall|i: int|
            0 <= i < li && #[trigger] active_variant(lines, i) ==> bag_has_variation(
                out,
                subs,
                now,
                lines[i],
            ),
{
    assert forall|i: int| 0 <= i < li && #[trigger] active_fq(lines, i) implies bag_has_core(
        out,
        subs,
        now,
        lines[i],
    ) by {
        if emojis_have_core(pre, lines[i]) {
            let k = choose|k: int|
                0 <= k < pre.len() && record_of_line(lines[i], #[trigger] pre[k]);
            assert(now[k] == pre[k]);
            assert(emojis_have_core(now, lines[i]));
        }
    }
    assert forall|i: int| 0 <= i < li && #[trigger] active_variant(lines, i) implies
        bag_has_variation(out, subs, now, lines[i]) by {
        if emojis_have_variation(pre, lines[i]) {
            let (k, v) = choose|k: int, v: int|
                0 <= k < pre.len() && 0 <= v < pre[k].variations@.len() && (
                #[trigger] pre[k].variations@[v])@ == emoji_col(lines[i]);
            assert(now[k] == pre[k]);
            assert(emojis_have_variation(now, lines[i]));
        }
    }
}

/// Growing the last record's variation list keeps every placed line
/// placed.
proof fn lemma_bag_grow_lastvar(
    out: Seq<GroupData>,
    subs: Seq<Subgroup>,
    pre: Seq<Emoji>,
    now: Seq<Emoji>,
    lines: Seq<Seq<char>>,
    li: int,
)
    requires
        now.len() == pre.len(),
        pre.len() > 0,
        forall|k: int| 0 <= k < pre.len() - 1 ==> now[k] == pre[k],
        same_core(now[now.len() - 1], pre[pre.len() - 1]),
        pre[pre.len() - 1].variations@.len() <= now[now.len() - 1].variations@.len(),
        forall|v: int|
            0 <= v < pre[pre.len() - 1].variations@.len() ==> now[now.len() - 1].variations@[v]
                == #[trigger] pre[pre.len() - 1].variations@[v],
        forall|i: int|
            0 <= i < li && #[trigger] active_fq(lines, i) ==> bag_has_core(
                out,
                subs,
                pre,
                lines[i],
            ),
        forall|i: int|
            0 <= i < li && #[trigger] active_variant(lines, i) ==> bag_has_variation(
                out,
                subs,
                pre,
                lines[i],
            ),
    ensures
        forall|i: int|
            0 <= i < li && #[trigger] active_fq(lines, i) ==> bag_has_core(
                out,
                subs,
                now,
                lines[i],
            ),
        forall|i: int|
            0 <= i < li && #[trigger] active_variant(lines, i) ==> bag_has_variation(
                out,
                subs,
                now,
                lines[i],
            ),
{
    assert forall|i: int| 0 <= i < li && #[trigger] active_fq(lines, i) implies bag_has_core(
        out,
        subs,
        now,
        lines[i],
    ) by {
        if emojis_have_core(pre, lines[i]) {
            let k = choose|k: int|
                0 <= k < pre.len() && record_of_line(lines[i], #[trigger] pre[k]);
            if k == pre.len() - 1 {
                assert(record_of_line(lines[i], now[k]));
            } else {
                assert(now[k] == pre[k]);
            }
            assert(emojis_have_core(now, lines[i]));
        }
    }
    assert forall|i: int| 0 <= i < li && #[trigger] active_variant(lines, i) implies
        bag_has_variation(out, subs, now, lines[i]) by {
        if emojis_have_variation(pre, lines[i]) {
            let (k, v) = choose|k: int, v: int|
                0 <= k < pre.len() && 0 <= v < pre[k].variations@.len() && (
                #[trigger] pre[k].variations@[v])@ == emoji_col(lines[i]);
            if k == pre.len() - 1 {
                assert(now[k].variations@[v] == pre[k].variations@[v]);
            } else {
                assert(now[k] == pre[k]);
            }
            assert(emojis_have_variation(now, lines[i]));
        }
    }
}

/// A rebuild that keeps every record's core and variations keeps
/// every placed line placed.
proof fn lemma_bag_grow_kept(
    out: Seq<GroupData>,
    subs: Seq<Subgroup>,
    pre: Seq<Emoji>,
    now: Seq<Emoji>,
    lines: Seq<Seq<char>>,
    li: int,
)
    requires
        forall|k0: int| 0 <= k0 < pre.len() ==> #[trigger] kept_in(pre, now, k0),
        forall|i: int|
            0 <= i < li && #[trigger] active_fq(lines, i) ==> bag_has_core(
                out,
                subs,
                pre,
                lines[i],
            ),
        forall|i: int|
            0 <= i < li && #[trigger] active_variant(lines, i) ==> bag_has_variation(
                out,
                subs,
                pre,
                lines[i],
            ),
    ensures
        forall|i: int|
            0 <= i < li && #[trigger] active_fq(lines, i) ==> bag_has_core(
                out,
                subs,
                now,
                lines[i],
            ),
        forall|i: int|
            0 <= i < li && #[trigger] active_variant(lines, i) ==> bag_has_variation(
                out,
                subs,
                now,
                lines[i],
            ),
{
    assert forall|i: int| 0 <= i < li && #[trigger] active_fq(lines, i) implies bag_has_core(
        out,
        subs,
        now,
        lines[i],
    ) by {
        if emojis_have_core(pre, lines[i]) {
            let k0 = choose|k0: int|
                0 <= k0 < pre.len() && record_of_line(lines[i], #[trigger] pre[k0]);
            assert(kept_in(pre, now, k0));
            let k = choose|k: int|
                0 <= k < now.len() && same_core(#[trigger] now[k], pre[k0]) && now[k].variations@
                    == pre[k0].variations@;
            assert(record_of_line(lines[i], now[k]));
            assert(emojis_have_core(now, lines[i]));
        }
    }
    assert forall|i: int| 0 <= i < li && #[trigger] active_variant(lines, i) implies
        bag_has_variation(out, subs, now, lines[i]) by {
        if emojis_have_variation(pre, lines[i]) {
            let (k0, v) = choose|k0: int, v: int|
                0 <= k0 < pre.len() && 0 <= v < pre[k0].variations@.len() && (
                #[trigger] pre[k0].variations@[v])@ == emoji_col(lines[i]);
            assert(kept_in(pre, now, k0));
            let k = choose|k: int|
                0 <= k < now.len() && same_core(#[trigger] now[k], pre[k0]) && now[k].variations@
                    == pre[k0].variations@;
            assert(now[k].variations@[v]@ == emoji_col(lines[i]));
            assert(emojis_have_variation(now, lines[i]));
        }
    }
}

/// Closing the open subgroup moves every placed line's record into
/// the subgroup list.
proof fn lemma_bag_subclose(
    out: Seq<GroupData>,
    subs0: Seq<Subgroup>,
    emjs0: Seq<Emoji>,
    subs1: Seq<Subgroup>,
    lines: Seq<Seq<char>>,
    li: int,
)
    requires
        subs1.len() == subs0.len() + 1,
        forall|s: int| 0 <= s < subs0.len() ==> subs1[s] == subs0[s],
        subs1[subs1.len() - 1].emojis@ == emjs0,
        forall|i: int|
            0 <= i < li && #[trigger] active_fq(lines, i) ==> bag_has_core(
                out,
                subs0,
                emjs0,
                lines[i],
            ),
        forall|i: int|
            0 <= i < li && #[trigger] active_variant(lines, i) ==> bag_has_variation(
                out,
                subs0,
                emjs0,
                lines[i],
            ),
    ensures
        forall|i: int|
            0 <= i < li && #[trigger] active_fq(lines, i) ==> bag_has_core(
                out,
                subs1,
                Seq::<Emoji>::empty(),
                lines[i],
            ),
        forall|i: int|
            0 <= i < li && #[trigger] active_variant(lines, i) ==> bag_has_variation(
                out,
                subs1,
                Seq::<Emoji>::empty(),
                lines[i],
            ),
{
    assert forall|i: int| 0 <= i < li && #[trigger] active_fq(lines, i) implies bag_has_core(
        out,
        subs1,
        Seq::<Emoji>::empty(),
        lines[i],
    ) by {
        if subs_have_core(subs0, lines[i]) {
            let s2 = choose|s2: int|
                0 <= s2 < subs0.len() && emojis_have_core((#[trigger] subs0[s2]).emojis@, lines[i]);
            assert(subs1[s2] == subs0[s2]);
            assert(subs_have_core(subs1, lines[i]));
        } else if emojis_have_core(emjs0, lines[i]) {
            assert(subs1[subs1.len() - 1].emojis@ == emjs0);
            assert(subs_have_core(subs1, lines[i]));
        }
    }
    assert forall|i: int| 0 <= i < li && #[trigger] active_variant(lines, i) implies
        bag_has_variation(out, subs1, Seq::<Emoji>::empty(), lines[i]) by {
        if subs_have_variation(subs0, lines[i]) {
            let s2 = choose|s2: int|
                0 <= s2 < subs0.len() && emojis_have_variation(
                    (#[trigger] subs0[s2]).emojis@,
                    lines[i],
                );
            assert(subs1[s2] == subs0[s2]);
            assert(subs_have_variation(subs1, lines[i]));
        } else if emojis_have_variation(emjs0, lines[i]) {
            assert(subs1[subs1.len() - 1].emojis@ == emjs0);
            assert(subs_have_variation(subs1, lines[i]));
        }
    }
}

/// Closing the open subgroup and group moves every placed line's
/// record into the finished groups.
proof fn lemma_bag_close_all(
    out0: Seq<GroupData>,
    subs0: Seq<Subgroup>,
    emjs0: Seq<Emoji>,
    out1: Seq<GroupData>,
    subs1: Seq<Subgroup>,
    was_sub: bool,
    had_group: bool,
    lines: Seq<Seq<char>>,
    li: int,
)
    requires
        was_sub ==> subs1.len() == subs0.len() + 1 && (forall|s: int|
            0 <= s < subs0.len() ==> subs1[s] == subs0[s]) && subs1[subs1.len() - 1].emojis@
            == emjs0,
        !was_sub ==> subs1 == subs0 && emjs0.len() == 0,
        had_group ==> out1.len() == out0.len() + 1 && (forall|g: int|
            0 <= g < out0.len() ==> out1[g] == out0[g]) && out1[out1.len() - 1].subgroups@ == subs1,
        !had_group ==> out1 == out0 && subs0.len() == 0 && emjs0.len() == 0,
        forall|i: int|
            0 <= i < li && #[trigger] active_fq(lines, i) ==> bag_has_core(
                out0,
                subs0,
                emjs0,
                lines[i],
            ),
        forall|i: int|
            0 <= i < li && #[trigger] active_variant(lines, i) ==> bag_has_variation(
                out0,
                subs0,
                emjs0,
                lines[i],
            ),
    ensures
        forall|i: int|
            0 <= i < li && #[trigger] active_fq(lines, i) ==> parsed_has_core(out1, lines[i]),
        forall|i: int|
            0 <= i < li && #[trigger] active_variant(lines, i) ==> parsed_has_variation(
                out1,
                lines[i],
            ),
{
    assert forall|i: int| 0 <= i < li && #[trigger] active_fq(lines, i) implies parsed_has_core(
        out1,
        lines[i],
    ) by {
        lemma_bag_close(out0, subs0, emjs0, out1, subs1, was_sub, had_group, lines[i]);
    }
    assert forall|i: int| 0 <= i < li && #[trigger] active_variant(lines, i) implies
        parsed_has_variation(out1, lines[i]) by {
        lemma_bag_close_variation(out0, subs0, emjs0, out1, subs1, was_sub, had_group, lines[i]);
    }
}

/// Parse the whole emoji test data text into groups of subgroups of
/// records. Only fully qualified lines become records; minimally
/// qualified and unqualified lines attach to the preceding record as
/// variations; skin-tone variants are placed next to their family's
/// default member in tone order; the Component group is dropped. On
/// success, every record was read off a line of the text, and every
/// active fully qualified data line — one standing in a run of a
/// recognized group — has a record carrying its fields in the result.
#[verifier::rlimit(100)]
pub fn parse_emoji_data(text: &str) -> (r: Result<Vec<GroupData>, ParseError>)
    ensures
        r matches Ok(d) ==> parsed_ok(d@) && parsed_sourced(text@, d@),
        r matches Ok(d) ==> forall|i: int|
            0 <= i < text_lines(text@).len() && #[trigger] active_fq(text_lines(text@), i)
                ==> parsed_has_core(d@, text_lines(text@)[i]),
        r matches Ok(d) ==> forall|i: int|
            0 <= i < text_lines(text@).len() && #[trigger] active_variant(text_lines(text@), i)
                ==> parsed_has_variation(d@, text_lines(text@)[i]),
{
    let chars = chars_of(text);
    let n = chars.len();
    let gprefix = chars_of("# group: ");
    let sprefix = chars_of("# subgroup: ");
    let ghost lines = text_lines(text@);
    let ghost mut li: int = 0;
    let mut out: Vec<GroupData> = Vec::new();
    let mut cur_group: Option<Group> = None;
    let mut in_component: bool = false;
    let mut cur_subs: Vec<Subgroup> = Vec::new();
    let mut cur_name: String = String::new();
    let mut cur_emojis: Vec<Emoji> = Vec::new();
    let mut in_sub: bool = false;
    let mut in_run: bool = false;
    let mut pos: usize = 0;
    proof {
        assert(text@.subrange(0, n as int) =~= text@);
        assert(lines.subrange(0, lines.len() as int) =~= lines);
    }
    while pos < n
        invariant_except_break
            text_lines(text@.subrange(pos as int, n as int)) == lines.subrange(
                li,
                lines.len() as int,
            ),
        invariant
            n == chars@.len(),
            chars@ == text@,
            lines == text_lines(text@),
            gprefix@ == "# group: "@,
            sprefix@ == "# subgroup: "@,
            pos <= n,
            pos == 0 || (0 < pos <= n && chars@[pos - 1] == '\n'),
            0 <= li <= lines.len(),
            state_before(lines, li).group_some == (cur_group is Some),
            state_before(lines, li).in_component == in_component,
            state_before(lines, li).in_sub == in_sub,
            state_before(lines, li).in_run == in_run,
            parsed_ok(out@),
            parsed_sourced(text@, out@),
            forall|s: int| 0 <= s < cur_subs@.len() ==> subgroup_ok(#[trigger] cur_subs@[s]),
            forall|s: int|
                0 <= s < cur_subs@.len() ==> subgroup_sourced(text@, #[trigger] cur_subs@[s]),
            forall|k: int| 0 <= k < cur_emojis@.len() ==> record_ok(#[trigger] cur_emojis@[k]),
            forall|k: int|
                0 <= k < cur_emojis@.len() ==> record_sourced(text@, #[trigger] cur_emojis@[k]),
            forall|i: int|
                0 <= i < li && #[trigger] active_fq(lines, i) ==> bag_has_core(
                    out@,
                    cur_subs@,
                    cur_emojis@,
                    lines[i],
                ),
            forall|i: int|
                0 <= i < li && #[trigger] active_variant(lines, i) ==> bag_has_variation(
                    out@,
                    cur_subs@,
                    cur_emojis@,
                    lines[i],
                ),
            in_run && !in_component ==> in_sub,
            in_sub ==> cur_group is Some,
            !in_sub ==> cur_emojis@.len() == 0,
            !(cur_group is Some) ==> cur_subs@.len() == 0,
        ensures
            li == lines.len(),
            parsed_ok(out@),
            parsed_sourced(text@, out@),
            forall|s: int| 0 <= s < cur_subs@.len() ==> subgroup_ok(#[trigger] cur_subs@[s]),
            forall|s: int|
                0 <= s < cur_subs@.len() ==> subgroup_sourced(text@, #[trigger] cur_subs@[s]),
            forall|k: int| 0 <= k < cur_emojis@.len() ==> record_ok(#[trigger] cur_emojis@[k]),
            forall|k: int|
                0 <= k < cur_emojis@.len() ==> record_sourced(text@, #[trigger] cur_emojis@[k]),
            forall|i: int|
                0 <= i < lines.len() && #[trigger] active_fq(lines, i) ==> bag_has_core(
                    out@,
                    cur_subs@,
                    cur_emojis@,
                    lines[i],
                ),
            forall|i: int|
                0 <= i < lines.len() && #[trigger] active_variant(lines, i) ==> bag_has_variation(
                    out@,
                    cur_subs@,
                    cur_emojis@,
                    lines[i],
                ),
            in_sub ==> cur_group is Some,
            !in_sub ==> cur_emojis@.len() == 0,
            !(cur_group is Some) ==> cur_subs@.len() == 0,
        decreases n - pos,
    {
        let eol = match find_char_from(&chars, pos, '\n') {
            Some(i) => i,
            None => n,
        };
        let mut line = sub_chars(&chars, pos, eol);
        if line.len() > 0 && line[line.len() - 1] == '\r' {
            let ghost raw = line@;
            let _dropped = line.pop();
            proof {
                assert(line@ =~= text@.subrange(pos as int, eol as int - 1));
                assert(raw[raw.len() - 1] == text@[eol - 1]);
            }
        }
        proof {
            let a = pos as int;
            let b = eol as int;
            assert(text@.subrange(a, b) == chars@.subrange(a, b));
            assert(is_line_of(text@, line@)) by {
                assert(0 <= a <= b <= text@.len());
                assert(a == 0 || text@[a - 1] == '\n');
                assert(b == text@.len() || text@[b] == '\n');
                assert(forall|x: int| a <= x < b ==> text@[x] != '\n');
                assert(line@ == text@.subrange(a, b) || (a < b && text@[b - 1] == '\r' && line@
                    == text@.subrange(a, b - 1)));
            }
            // the current line is the line at index `li`
            lemma_line_alignment(text@, lines, li, a, b, line@);
            assert(lines[li] == line@);
            assert(state_before(lines, li + 1) == scan_step(state_before(lines, li), lines[li]));
        }
        let ghost st = state_before(lines, li);
        if in_run && line.len() == 0 {
            in_run = false;
            proof {
                assert(scan_step(st, lines[li]) == ScanState {
                    group_some: st.group_some,
                    in_component: st.in_component,
                    in_sub: st.in_sub,
                    in_run: false,
                });
                assert(!active_fq(lines, li));
                assert(!active_variant(lines, li));
            }
        } else if in_run {
            let e = match Emoji::from_line(&line) {
                Ok(e) => e,
                Err(er) => {
                    return Err(er);
                },
            };
            proof {
                assert(scan_step(st, lines[li]) == st);
                assert(line_ok(lines[li]));
            }
            match e.status {
                Status::Component => {
                    proof {
                        reveal_strlit("fully-qualified");
                        reveal_strlit("minimally-qualified");
                        reveal_strlit("unqualified");
                        reveal_strlit("component");
                        assert(line_fields(line@, e));
                        assert(status_col(lines[li]) == status_literal(Status::Component));
                        assert(!active_fq(lines, li));
                        assert(!active_variant(lines, li));
                    }
                },
                Status::MinimallyQualified | Status::Unqualified => {
                    if in_component {
                        // the Component group keeps no records a
                        // variant form could attach to
                        return Err(ParseError::MissingFullyQualified);
                    }
                    proof {
                        reveal_strlit("fully-qualified");
                        reveal_strlit("minimally-qualified");
                        reveal_strlit("unqualified");
                        assert(line_fields(line@, e));
                        assert(status_col(lines[li]) == status_literal(e.status));
                        assert(!active_fq(lines, li));
                        assert(e.emoji@ == emoji_col(lines[li]));
                    }
                    let ghost eseq = e.emoji@;
                    let ghost pre_pop = cur_emojis@;
                    let mut last = match cur_emojis.pop() {
                        Some(x) => x,
                        None => {
                            return Err(ParseError::MissingFullyQualified);
                        },
                    };
                    let ghost last0 = last;
                    last.variations.push(e.emoji);
                    proof {
                        assert(record_sourced(text@, pre_pop[pre_pop.len() - 1]));
                        let ls = choose|ls: Seq<char>|
                            is_line_of(text@, ls) && #[trigger] line_fields(ls, last0);
                        assert(same_core(last, last0));
                        lemma_line_fields_core(ls, last0, last);
                        assert(record_sourced(text@, last));
                    }
                    cur_emojis.push(last);
                    proof {
                        lemma_bag_grow_lastvar(out@, cur_subs@, pre_pop, cur_emojis@, lines, li);
                        // the variant line's sequence now stands among
                        // the last record's variations
                        let lk = cur_emojis@.len() - 1;
                        let lv = cur_emojis@[lk].variations@.len() - 1;
                        assert(cur_emojis@[lk].variations@[lv]@ == eseq);
                        assert(emojis_have_variation(cur_emojis@, lines[li]));
                    }
                },
                Status::FullyQualified => {
                    if in_component {
                        // only status-component lines belong to the
                        // synthetic Component group
                        return Err(ParseError::UnknownGroup);
                    }
                    proof {
                        reveal_strlit("fully-qualified");
                        reveal_strlit("minimally-qualified");
                        reveal_strlit("unqualified");
                        assert(line_fields(line@, e));
                        assert(record_sourced(text@, e));
                        assert(record_of_line(lines[li], e));
                        assert(status_col(lines[li]) == status_literal(Status::FullyQualified));
                        assert(!active_variant(lines, li));
                    }
                    let isdef = match e.skin_tone {
                        None => true,
                        Some(t) => t == SkinTone::Default,
                    };
                    if isdef {
                        let ghost pre = cur_emojis@;
                        cur_emojis.push(e);
                        proof {
                            lemma_bag_grow_push(out@, cur_subs@, pre, cur_emojis@, lines, li);
                            assert(record_of_line(lines[li], cur_emojis@[cur_emojis@.len() - 1]));
                            assert(emojis_have_core(cur_emojis@, lines[li]));
                        }
                    } else {
                        let ghost prev = cur_emojis@;
                        let ghost variant0 = e;
                        match attach_variant(&mut cur_emojis, e) {
                            Ok(_u) => {},
                            Err(er) => {
                                return Err(er);
                            },
                        }
                        proof {
                            assert forall|k: int| 0 <= k < cur_emojis@.len() implies
                                record_sourced(text@, #[trigger] cur_emojis@[k]) by {
                                assert(core_from(cur_emojis@[k], prev, variant0));
                                if exists|k0: int|
                                    0 <= k0 < prev.len() && same_core(
                                        cur_emojis@[k],
                                        #[trigger] prev[k0],
                                    ) {
                                    let k0 = choose|k0: int|
                                        0 <= k0 < prev.len() && same_core(
                                            cur_emojis@[k],
                                            #[trigger] prev[k0],
                                        );
                                    assert(record_sourced(text@, prev[k0]));
                                    let ls = choose|ls: Seq<char>|
                                        is_line_of(text@, ls) && #[trigger] line_fields(
                                            ls,
                                            prev[k0],
                                        );
                                    lemma_line_fields_core(ls, prev[k0], cur_emojis@[k]);
                                } else {
                                    assert(same_core(cur_emojis@[k], variant0));
                                    let ls = choose|ls: Seq<char>|
                                        is_line_of(text@, ls) && #[trigger] line_fields(
                                            ls,
                                            variant0,
                                        );
                                    lemma_line_fields_core(ls, variant0, cur_emojis@[k]);
                                }
                            }
                            lemma_bag_grow_kept(out@, cur_subs@, prev, cur_emojis@, lines, li);
                            let k = choose|k: int|
                                0 <= k < cur_emojis@.len() && same_core(
                                    #[trigger] cur_emojis@[k],
                                    variant0,
                                );
                            assert(record_of_line(lines[li], cur_emojis@[k]));
                            assert(emojis_have_core(cur_emojis@, lines[li]));
                        }
                    }
                },
            }
        } else if starts_with_at(&line, 0, &gprefix) {
            let ghost out0 = out@;
            let ghost subs0 = cur_subs@;
            let ghost emjs0 = cur_emojis@;
            let ghost was_sub = in_sub;
            let ghost had_group = cur_group is Some;
            if in_sub {
                let sub = Subgroup { name: cur_name, emojis: cur_emojis };
                cur_subs.push(sub);
                cur_name = String::new();
                cur_emojis = Vec::new();
                in_sub = false;
            }
            let ghost subs1 = cur_subs@;
            match cur_group {
                Some(g) => {
                    let gd = GroupData { group: g, subgroups: cur_subs };
                    out.push(gd);
                },
                None => {},
            }
            cur_subs = Vec::new();
            cur_group = None;
            in_component = false;
            in_run = false;
            proof {
                assert(line@.subrange(0, line@.len() as int) =~= line@);
                // the closed content keeps every line's record
                lemma_bag_close_all(out0, subs0, emjs0, out@, subs1, was_sub, had_group, lines, li);
                assert(!active_fq(lines, li));
                assert(!active_variant(lines, li));
            }
            let gname = sub_chars(&line, gprefix.len(), line.len());
            proof {
                assert(gprefix@ == "# group: "@);
                assert(is_prefix_of("# group: "@, lines[li]));
                assert(gname@ == lines[li].subrange(
                    "# group: "@.len() as int,
                    lines[li].len() as int,
                ));
            }
            match resolve_group(&gname) {
                Some(found) => match found {
                    Some(g) => {
                        cur_group = Some(g);
                        proof {
                            assert(spec_group_of_name(lines[li].subrange(
                                "# group: "@.len() as int,
                                lines[li].len() as int,
                            )) == Some(Some(g)));
                            assert(scan_step(st, lines[li]) == ScanState {
                                group_some: true,
                                in_component: false,
                                in_sub: false,
                                in_run: false,
                            });
                        }
                    },
                    None => {
                        in_component = true;
                        proof {
                            assert(spec_group_of_name(lines[li].subrange(
                                "# group: "@.len() as int,
                                lines[li].len() as int,
                            )) == Some(None::<Group>));
                            assert(scan_step(st, lines[li]) == ScanState {
                                group_some: false,
                                in_component: true,
                                in_sub: false,
                                in_run: false,
                            });
                        }
                    },
                },
                None => {
                    return Err(ParseError::UnknownGroup);
                },
            }
        } else if starts_with_at(&line, 0, &sprefix) {
            proof {
                assert(line@.subrange(0, line@.len() as int) =~= line@);
                assert(!active_fq(lines, li));
                assert(!active_variant(lines, li));
            }
            if cur_group.is_some() || in_component {
                let ghost subs0 = cur_subs@;
                let ghost emjs0 = cur_emojis@;
                let ghost was_sub = in_sub;
                if in_sub {
                    let sub = Subgroup { name: cur_name, emojis: cur_emojis };
                    cur_subs.push(sub);
                    cur_name = String::new();
                    cur_emojis = Vec::new();
                    in_sub = false;
                }
                proof {
                    if was_sub {
                        lemma_bag_subclose(out@, subs0, emjs0, cur_subs@, lines, li);
                        assert(cur_emojis@ =~= Seq::<Emoji>::empty());
                    }
                }
                if !in_component {
                    let sname = sub_chars(&line, sprefix.len(), line.len());
                    cur_name = string_of_chars(&sname);
                    in_sub = true;
                }
                in_run = true;
                proof {
                    assert(scan_step(st, lines[li]) == ScanState {
                        group_some: st.group_some,
                        in_component: st.in_component,
                        in_sub: !st.in_component,
                        in_run: true,
                    });
                }
            } else {
                proof {
                    assert(scan_step(st, lines[li]) == st);
                }
            }
        } else {
            proof {
                assert(line@.subrange(0, line@.len() as int) =~= line@);
                assert(scan_step(st, lines[li]) == st);
                assert(!active_fq(lines, li));
                assert(!active_variant(lines, li));
            }
        }
        proof {
            li = li + 1;
        }
        if eol >= n {
            break;
        }
        pos = eol + 1;
    }
    let ghost out_f = out@;
    let ghost subs_f = cur_subs@;
    let ghost emjs_f = cur_emojis@;
    let ghost was_sub = in_sub;
    let ghost had_group = cur_group is Some;
    if in_sub {
        let sub = Subgroup { name: cur_name, emojis: cur_emojis };
        cur_subs.push(sub);
    }
    let ghost subs1 = cur_subs@;
    match cur_group {
        Some(g) => {
            let gd = GroupData { group: g, subgroups: cur_subs };
            out.push(gd);
        },
        None => {},
    }
    proof {
        lemma_bag_close_all(
            out_f,
            subs_f,
            emjs_f,
            out@,
            subs1,
            was_sub,
            had_group,
            lines,
            lines.len() as int,
        );
    }
    Ok(out)
}

} // verus!
