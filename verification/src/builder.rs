//! Building a frozen [`EmojiTable`] from parsed Unicode data and the
//! gemoji alias list.
//!
//! The builder is the data producer's gate: it lays the records out in
//! source order, computes each skin-tone family's start, size and
//! member tones, attaches shortcode aliases, registers every sequence,
//! variation and alias in the key maps, and rejects any input that
//! would violate the table invariants — a duplicate key, a malformed
//! family, or records of one group split apart.

use vstd::prelude::*;

use crate::github;
use crate::group::Group;
use crate::group::group_rank;
use crate::table::Emoji;
use crate::table::EmojiTable;
use crate::table::has_key;
use crate::table::key_is_alias;
use crate::table::keys_distinct;
use crate::table::keys_in_range;
use crate::table::member_tone;
use crate::table::record_tone;
use crate::table::same_family;
use crate::table::tone_ok;
use crate::tone::SkinTone;
use crate::tone::tone_rank;
use crate::unicode::GroupData;
use crate::unicode::Subgroup;

verus! {

/// Why table construction failed: the input would violate a table
/// invariant.
#[derive(Debug, Clone, Copy, PartialEq, Eq, Structural)]
pub enum BuildError {
    /// Two Unicode keys (sequences or variations) collide.
    DuplicateUnicodeKey,
    /// Two shortcode aliases collide.
    DuplicateShortcode,
    /// A skin-tone family is malformed: a variant without a preceding
    /// default member, tones out of order, or a size other than 6 or
    /// 26.
    BadFamily,
    /// Records of one group are not contiguous in source order.
    GroupDisorder,
}

/// Pairing every record of a subgroup with its group.
pub open spec fn with_group(g: Group) -> spec_fn(crate::unicode::Emoji) -> (
    Group,
    crate::unicode::Emoji,
) {
    |e: crate::unicode::Emoji| (g, e)
}

/// One subgroup's records, paired with their group.
pub open spec fn sub_flat(g: Group, s: Subgroup) -> Seq<(Group, crate::unicode::Emoji)> {
    s.emojis@.map_values(with_group(g))
}

/// One group's records, in subgroup order.
pub open spec fn subs_flat(g: Group, subs: Seq<Subgroup>) -> Seq<(Group, crate::unicode::Emoji)>
    decreases subs.len(),
{
    if subs.len() == 0 {
        Seq::empty()
    } else {
        subs_flat(g, subs.drop_last()) + sub_flat(g, subs.last())
    }
}

/// All parsed records in source order, each paired with its group.
pub open spec fn groups_flat(d: Seq<GroupData>) -> Seq<(Group, crate::unicode::Emoji)>
    decreases d.len(),
{
    if d.len() == 0 {
        Seq::empty()
    } else {
        groups_flat(d.drop_last()) + subs_flat(d.last().group, d.last().subgroups@)
    }
}

/// The two entries carry the same data: the same group and records
/// equal field by field.
pub open spec fn same_entry(
    a: (Group, crate::unicode::Emoji),
    b: (Group, crate::unicode::Emoji),
) -> bool {
    &&& a.0 == b.0
    &&& a.1.emoji == b.1.emoji
    &&& a.1.name == b.1.name
    &&& a.1.unicode_version == b.1.unicode_version
    &&& a.1.status == b.1.status
    &&& a.1.skin_tone == b.1.skin_tone
    &&& a.1.variations@ == b.1.variations@
}

/// The two entry sequences carry the same data, entry by entry.
pub open spec fn entries_match(
    a: Seq<(Group, crate::unicode::Emoji)>,
    b: Seq<(Group, crate::unicode::Emoji)>,
) -> bool {
    a.len() == b.len() && forall|k: int| 0 <= k < a.len() ==> same_entry(#[trigger] a[k], b[k])
}

/// Every flattened entry of one group's subgroups is one of its
/// records.
proof fn lemma_subs_entry(g: Group, subs: Seq<Subgroup>, k: int)
    requires
        0 <= k < subs_flat(g, subs).len(),
    ensures
        exists|s: int, i: int|
            #![trigger subs[s].emojis@[i]]
            {
                &&& 0 <= s < subs.len()
                &&& 0 <= i < subs[s].emojis@.len()
                &&& subs_flat(g, subs)[k].1 == subs[s].emojis@[i]
            },
    decreases subs.len(),
{
    let whole = subs_flat(g, subs);
    let front = subs_flat(g, subs.drop_last());
    if k < front.len() {
        lemma_subs_entry(g, subs.drop_last(), k);
        let (s, i) = choose|s: int, i: int|
            0 <= s < subs.drop_last().len() && 0 <= i < subs.drop_last()[s].emojis@.len()
                && subs_flat(g, subs.drop_last())[k].1 == #[trigger] subs.drop_last()[s].emojis@[i];
        assert(subs.drop_last()[s] == subs[s]);
        assert(whole[k] == front[k]);
        assert(whole[k].1 == subs[s].emojis@[i]);
    } else {
        let i = k - front.len();
        assert(whole[k] == sub_flat(g, subs.last())[i]);
        assert(sub_flat(g, subs.last())[i] == with_group(g)(subs.last().emojis@[i]));
        let s = subs.len() - 1;
        assert(subs[s] == subs.last());
        assert(whole[k].1 == subs[s].emojis@[i]);
    }
}

/// Every flattened entry of parsed data is one of its records.
proof fn lemma_flat_entry_is_record(d: Seq<GroupData>, k: int)
    requires
        0 <= k < groups_flat(d).len(),
    ensures
        exists|g: int, s: int, i: int|
            #![trigger d[g].subgroups@[s].emojis@[i]]
            {
                &&& 0 <= g < d.len()
                &&& 0 <= s < d[g].subgroups@.len()
                &&& 0 <= i < d[g].subgroups@[s].emojis@.len()
                &&& groups_flat(d)[k].1 == d[g].subgroups@[s].emojis@[i]
            },
    decreases d.len(),
{
    let whole = groups_flat(d);
    let front = groups_flat(d.drop_last());
    if k < front.len() {
        lemma_flat_entry_is_record(d.drop_last(), k);
        let (g, s, i) = choose|g: int, s: int, i: int|
            0 <= g < d.drop_last().len() && 0 <= s < d.drop_last()[g].subgroups@.len() && 0 <= i
                < d.drop_last()[g].subgroups@[s].emojis@.len() && groups_flat(d.drop_last())[k].1
                == #[trigger] d.drop_last()[g].subgroups@[s].emojis@[i];
        assert(d.drop_last()[g] == d[g]);
        assert(whole[k] == front[k]);
        assert(whole[k].1 == d[g].subgroups@[s].emojis@[i]);
    } else {
        let k2 = k - front.len();
        let gd = d.last();
        assert(whole[k] == subs_flat(gd.group, gd.subgroups@)[k2]);
        lemma_subs_entry(gd.group, gd.subgroups@, k2);
        let (s, i) = choose|s: int, i: int|
            0 <= s < gd.subgroups@.len() && 0 <= i < gd.subgroups@[s].emojis@.len() && subs_flat(
                gd.group,
                gd.subgroups@,
            )[k2].1 == #[trigger] gd.subgroups@[s].emojis@[i];
        let g = d.len() - 1;
        assert(d[g] == gd);
        assert(whole[k].1 == d[g].subgroups@[s].emojis@[i]);
    }
}

/// Law: every record of a table built from parsed data carries the
/// sequence, name and version that some line of the source text shows,
/// laid out as the data format prescribes.
pub proof fn lemma_table_records_sourced(
    text: Seq<char>,
    parsed: Seq<GroupData>,
    gemoji: Seq<github::Emoji>,
    t: EmojiTable,
    k: int,
)
    requires
        crate::unicode::parsed_sourced(text, parsed),
        t.spec_records().len() == groups_flat(parsed).len(),
        forall|k2: int|
            0 <= k2 < groups_flat(parsed).len() ==> built_record_matches(
                #[trigger] t.spec_records()[k2],
                groups_flat(parsed)[k2],
                gemoji,
            ),
        0 <= k < t.spec_records().len(),
    ensures
        exists|ls: Seq<char>, pe: crate::unicode::Emoji|
            {
                &&& crate::unicode::is_line_of(text, ls)
                &&& #[trigger] crate::unicode::line_fields(ls, pe)
                &&& pe.emoji@ == t.spec_records()[k].emoji@
                &&& pe.name@ == t.spec_records()[k].name@
                &&& pe.unicode_version == t.spec_records()[k].unicode_version
            },
{
    let rec = t.spec_records()[k];
    assert(built_record_matches(rec, groups_flat(parsed)[k], gemoji));
    lemma_flat_entry_is_record(parsed, k);
    let (g, s, i) = choose|g: int, s: int, i: int|
        0 <= g < parsed.len() && 0 <= s < parsed[g].subgroups@.len() && 0 <= i
            < parsed[g].subgroups@[s].emojis@.len() && groups_flat(parsed)[k].1
            == #[trigger] parsed[g].subgroups@[s].emojis@[i];
    let pe = parsed[g].subgroups@[s].emojis@[i];
    assert(crate::unicode::subgroup_sourced(text, parsed[g].subgroups@[s]));
    assert(crate::unicode::record_sourced(text, pe));
    let ls = choose|ls: Seq<char>|
        crate::unicode::is_line_of(text, ls) && #[trigger] crate::unicode::line_fields(ls, pe);
    assert(crate::unicode::is_line_of(text, ls) && crate::unicode::line_fields(ls, pe)
        && pe.emoji@ == rec.emoji@ && pe.name@ == rec.name@ && pe.unicode_version
        == rec.unicode_version);
}

/// The aliases the gemoji list gives a sequence: those of its first
/// entry for that sequence, none otherwise.
pub open spec fn spec_aliases_for(gemoji: Seq<github::Emoji>, k: Seq<char>) -> Seq<String>
    decreases gemoji.len(),
{
    if gemoji.len() == 0 {
        Seq::empty()
    } else if gemoji[0].emoji@ == k {
        gemoji[0].aliases@
    } else {
        spec_aliases_for(gemoji.drop_first(), k)
    }
}

/// A built table record carries exactly the data of its source entry:
/// the entry's sequence, name, version, group and tone, and the
/// aliases the gemoji list gives its sequence.
pub open spec fn built_record_matches(
    rec: Emoji,
    src: (Group, crate::unicode::Emoji),
    gemoji: Seq<github::Emoji>,
) -> bool {
    &&& rec.emoji@ == src.1.emoji@
    &&& rec.name@ == src.1.name@
    &&& rec.unicode_version == src.1.unicode_version
    &&& rec.group == src.0
    &&& record_tone(rec) == src.1.skin_tone
    &&& rec.aliases@ == spec_aliases_for(gemoji, src.1.emoji@)
}

/// A copy of a vector of strings.
fn clone_strings(v: &Vec<String>) -> (r: Vec<String>)
    ensures
        r@ == v@,
{
    let mut out: Vec<String> = Vec::new();
    let n = v.len();
    let mut i: usize = 0;
    while i < n
        invariant
            n == v@.len(),
            i <= n,
            out@ == v@.subrange(0, i as int),
        decreases n - i,
    {
        out.push(v[i].clone());
        proof {
            assert(out@ =~= v@.subrange(0, i as int + 1));
        }
        i = i + 1;
    }
    proof {
        assert(v@.subrange(0, n as int) =~= v@);
    }
    out
}

/// A copy of a parsed record, field by field.
fn clone_parsed(e: &crate::unicode::Emoji) -> (r: crate::unicode::Emoji)
    ensures
        r.emoji == e.emoji,
        r.name == e.name,
        r.unicode_version == e.unicode_version,
        r.status == e.status,
        r.skin_tone == e.skin_tone,
        r.skin_tones == e.skin_tones,
        r.variations@ == e.variations@,
{
    crate::unicode::Emoji {
        emoji: e.emoji.clone(),
        name: e.name.clone(),
        unicode_version: e.unicode_version,
        status: e.status,
        skin_tones: e.skin_tones,
        skin_tone: e.skin_tone,
        variations: clone_strings(&e.variations),
    }
}

/// All parsed records in source order, each paired with its group.
pub fn flatten_parsed(parsed: &Vec<GroupData>) -> (r: Vec<(Group, crate::unicode::Emoji)>)
    ensures
        entries_match(r@, groups_flat(parsed@)),
{
    let mut out: Vec<(Group, crate::unicode::Emoji)> = Vec::new();
    let ng = parsed.len();
    let mut gi: usize = 0;
    while gi < ng
        invariant
            ng == parsed@.len(),
            gi <= ng,
            entries_match(out@, groups_flat(parsed@.subrange(0, gi as int))),
        decreases ng - gi,
    {
        let g = parsed[gi].group;
        let ghost base_g = groups_flat(parsed@.subrange(0, gi as int));
        proof {
            assert(parsed@.subrange(0, gi as int + 1).drop_last() =~= parsed@.subrange(
                0,
                gi as int,
            ));
            assert(parsed@.subrange(0, gi as int + 1).last() == parsed@[gi as int]);
        }
        let ns = parsed[gi].subgroups.len();
        let mut si: usize = 0;
        while si < ns
            invariant
                ng == parsed@.len(),
                gi < ng,
                ns == parsed@[gi as int].subgroups@.len(),
                si <= ns,
                g == parsed@[gi as int].group,
                base_g == groups_flat(parsed@.subrange(0, gi as int)),
                entries_match(
                    out@,
                    base_g + subs_flat(g, parsed@[gi as int].subgroups@.subrange(0, si as int)),
                ),
            decreases ns - si,
        {
            let ghost subs = parsed@[gi as int].subgroups@;
            let ghost base_s = base_g + subs_flat(g, subs.subrange(0, si as int));
            proof {
                assert(subs.subrange(0, si as int + 1).drop_last() =~= subs.subrange(0, si as int));
                assert(subs.subrange(0, si as int + 1).last() == subs[si as int]);
            }
            let ne = parsed[gi].subgroups[si].emojis.len();
            let mut ei: usize = 0;
            while ei < ne
                invariant
                    ng == parsed@.len(),
                    gi < ng,
                    ns == parsed@[gi as int].subgroups@.len(),
                    si < ns,
                    ne == parsed@[gi as int].subgroups@[si as int].emojis@.len(),
                    ei <= ne,
                    g == parsed@[gi as int].group,
                    subs == parsed@[gi as int].subgroups@,
                    base_s == base_g + subs_flat(g, subs.subrange(0, si as int)),
                    entries_match(
                        out@,
                        base_s + subs[si as int].emojis@.subrange(0, ei as int).map_values(
                            with_group(g),
                        ),
                    ),
                decreases ne - ei,
            {
                let e = clone_parsed(&parsed[gi].subgroups[si].emojis[ei]);
                out.push((g, e));
                proof {
                    let em = subs[si as int].emojis@;
                    assert(em.subrange(0, ei as int + 1) =~= em.subrange(0, ei as int).push(
                        em[ei as int],
                    ));
                    assert(em.subrange(0, ei as int + 1).map_values(with_group(g)) =~= em.subrange(
                        0,
                        ei as int,
                    ).map_values(with_group(g)).push(with_group(g)(em[ei as int])));
                    assert(entries_match(
                        out@,
                        base_s + em.subrange(0, ei as int + 1).map_values(with_group(g)),
                    ));
                }
                ei = ei + 1;
            }
            proof {
                let em = subs[si as int].emojis@;
                assert(em.subrange(0, ne as int) =~= em);
                assert(sub_flat(g, subs[si as int]) == em.map_values(with_group(g)));
                assert(subs_flat(g, subs.subrange(0, si as int + 1)) == subs_flat(
                    g,
                    subs.subrange(0, si as int),
                ) + sub_flat(g, subs[si as int]));
                assert(base_g + subs_flat(g, subs.subrange(0, si as int + 1)) =~= base_s + em.map_values(
                    with_group(g),
                ));
            }
            si = si + 1;
        }
        proof {
            let subs = parsed@[gi as int].subgroups@;
            assert(subs.subrange(0, ns as int) =~= subs);
            assert(groups_flat(parsed@.subrange(0, gi as int + 1)) == base_g + subs_flat(g, subs));
        }
        gi = gi + 1;
    }
    proof {
        assert(parsed@.subrange(0, ng as int) =~= parsed@);
    }
    out
}

/// The aliases the gemoji list gives a sequence.
fn aliases_for(gemoji: &Vec<github::Emoji>, key: &String) -> (r: Vec<String>)
    ensures
        r@ == spec_aliases_for(gemoji@, key@),
{
    let n = gemoji.len();
    let mut i: usize = 0;
    while i < n
        invariant
            n == gemoji@.len(),
            i <= n,
            forall|j: int| 0 <= j < i ==> (#[trigger] gemoji@[j]).emoji@ != key@,
        decreases n - i,
    {
        if gemoji[i].emoji.eq(key) {
            let r = clone_strings(gemoji[i].aliases());
            proof {
                lemma_aliases_at(gemoji@, key@, i as int);
            }
            return r;
        }
        i = i + 1;
    }
    proof {
        lemma_aliases_none(gemoji@, key@);
    }
    Vec::new()
}

/// The first gemoji entry for a sequence decides its aliases.
proof fn lemma_aliases_at(gemoji: Seq<github::Emoji>, k: Seq<char>, i: int)
    requires
        0 <= i < gemoji.len(),
        gemoji[i].emoji@ == k,
        forall|j: int| 0 <= j < i ==> (#[trigger] gemoji[j]).emoji@ != k,
    ensures
        spec_aliases_for(gemoji, k) == gemoji[i].aliases@,
    decreases i,
{
    if i > 0 {
        lemma_aliases_at(gemoji.drop_first(), k, i - 1);
    }
}

/// A sequence absent from the gemoji list gets no aliases.
proof fn lemma_aliases_none(gemoji: Seq<github::Emoji>, k: Seq<char>)
    requires
        forall|j: int| 0 <= j < gemoji.len() ==> (#[trigger] gemoji[j]).emoji@ != k,
    ensures
        spec_aliases_for(gemoji, k) == Seq::<String>::empty(),
    decreases gemoji.len(),
{
    if gemoji.len() > 0 {
        lemma_aliases_none(gemoji.drop_first(), k);
    }
}

/// A record's layout invariant is untouched by records appended later.
proof fn lemma_tone_ok_push(s: Seq<Emoji>, x: Emoji, k: int)
    requires
        0 <= k < s.len(),
        tone_ok(s, k),
    ensures
        tone_ok(s.push(x), k),
{
    let s2 = s.push(x);
    match s[k].skin_tone {
        Some(info) => {
            let b = info.0 as int;
            let n = info.1 as int;
            assert(s2[k] == s[k]);
            assert forall|m: int| b <= m < b + n implies same_family(s2, m, info.0, info.1) by {
                assert(s2[m] == s[m]);
                assert(same_family(s, m, info.0, info.1));
            }
            assert forall|k1: int, k2: int| b <= k1 < k2 < b + n implies tone_rank(
                member_tone(s2, k1),
            ) < tone_rank(member_tone(s2, k2)) by {
                assert(s2[k1] == s[k1]);
                assert(s2[k2] == s[k2]);
                assert(tone_rank(member_tone(s, k1)) < tone_rank(member_tone(s, k2)));
            }
            assert forall|m: int| b <= m < b + n implies tone_rank(#[trigger] member_tone(s2, m))
                == m - b by {
                assert(s2[m] == s[m]);
                assert(tone_rank(member_tone(s, m)) == m - b);
            }
            assert(s2[b] == s[b]);
        },
        None => {
            assert(s2[k] == s[k]);
        },
    }
}

/// The tone of a flattened entry; meaningful only when present.
pub open spec fn flat_tone(p: (Group, crate::unicode::Emoji)) -> SkinTone {
    match p.1.skin_tone {
        Some(t) => t,
        None => SkinTone::Default,
    }
}

/// The key map view the table derives from a key vector.
pub open spec fn kview(keys: Seq<(String, usize)>) -> Seq<(Seq<char>, int)> {
    keys.map_values(|p: (String, usize)| (p.0@, p.1 as int))
}

/// Group ranks that never decrease between neighbours never decrease
/// at all.
proof fn lemma_rank_le(s: Seq<Emoji>, i: int, j: int)
    requires
        forall|k: int| 0 < k < s.len() ==> group_rank(s[k - 1].group) <= group_rank(
            (#[trigger] s[k]).group,
        ),
        0 <= i <= j < s.len(),
    ensures
        group_rank(s[i].group) <= group_rank(s[j].group),
    decreases j - i,
{
    if i < j {
        lemma_rank_le(s, i, j - 1);
    }
}

/// Whether a key string already occurs in a key vector.
fn key_present(keys: &Vec<(String, usize)>, s: &String) -> (r: bool)
    ensures
        r <==> exists|j: int| 0 <= j < keys@.len() && (#[trigger] keys@[j]).0@ == s@,
{
    let n = keys.len();
    let mut i: usize = 0;
    while i < n
        invariant
            n == keys@.len(),
            i <= n,
            forall|j: int| 0 <= j < i ==> (#[trigger] keys@[j]).0@ != s@,
        decreases n - i,
    {
        if keys[i].0.eq(s) {
            return true;
        }
        i = i + 1;
    }
    false
}

/// Sequences carrying the same data end their runs at the same spot.
proof fn lemma_entries_scan_end(
    a: Seq<(Group, crate::unicode::Emoji)>,
    b: Seq<(Group, crate::unicode::Emoji)>,
    j: int,
)
    requires
        entries_match(a, b),
        0 <= j,
    ensures
        scan_end(a, j) == scan_end(b, j),
    decreases a.len() - j,
{
    if j < a.len() {
        assert(same_entry(a[j], b[j]));
        assert(stops_run(a[j]) == stops_run(b[j]));
        if !stops_run(a[j]) {
            lemma_entries_scan_end(a, b, j + 1);
        }
    }
}

/// Sequences carrying the same data hold the same family runs.
proof fn lemma_entries_family_run(
    a: Seq<(Group, crate::unicode::Emoji)>,
    b: Seq<(Group, crate::unicode::Emoji)>,
    i: int,
    j: int,
)
    requires
        entries_match(a, b),
    ensures
        family_run(a, i, j) == family_run(b, i, j),
{
    assert forall|q: int| 0 <= q < a.len() implies #[trigger] frank(a, q) == frank(b, q) && ((
    a[q].1.skin_tone is Some) == (b[q].1.skin_tone is Some)) by {
        assert(same_entry(a[q], b[q]));
    }
    if family_run(a, i, j) {
        assert(family_run(b, i, j)) by {
            assert forall|k: int| i < k < j implies (#[trigger] b[k]).1.skin_tone is Some by {
                assert(a[k].1.skin_tone is Some);
            }
            assert forall|k: int| i < k < j implies 0 < #[trigger] frank(b, k) by {
                assert(0 < frank(a, k));
            }
            assert forall|k1: int, k2: int|
                i < k1 < k2 < j implies #[trigger] frank(b, k1) < #[trigger] frank(b, k2) by {
                assert(frank(a, k1) < frank(a, k2));
            }
            assert forall|k: int| i <= k < j implies #[trigger] frank(b, k) == k - i by {
                assert(frank(a, k) == k - i);
            }
        }
    }
    if family_run(b, i, j) {
        assert(family_run(a, i, j)) by {
            assert forall|k: int| i < k < j implies (#[trigger] a[k]).1.skin_tone is Some by {
                assert(b[k].1.skin_tone is Some);
            }
            assert forall|k: int| i < k < j implies 0 < #[trigger] frank(a, k) by {
                assert(0 < frank(b, k));
            }
            assert forall|k1: int, k2: int|
                i < k1 < k2 < j implies #[trigger] frank(a, k1) < #[trigger] frank(a, k2) by {
                assert(frank(b, k1) < frank(b, k2));
            }
            assert forall|k: int| i <= k < j implies #[trigger] frank(a, k) == k - i by {
                assert(frank(b, k) == k - i);
            }
        }
    }
}

/// Sequences carrying the same data are acceptable together: the
/// layout and group conditions see only the fields the entries share.
proof fn lemma_entries_conditions(
    a: Seq<(Group, crate::unicode::Emoji)>,
    b: Seq<(Group, crate::unicode::Emoji)>,
)
    requires
        entries_match(a, b),
    ensures
        layout_ok(a) == layout_ok(b),
        groups_ok(a) == groups_ok(b),
{
    assert forall|k: int| 0 <= k < a.len() implies #[trigger] position_ok(a, k) == position_ok(
        b,
        k,
    ) by {
        assert(same_entry(a[k], b[k]));
        lemma_entries_scan_end(a, b, k + 1);
        assert forall|q: int| 0 <= q < a.len() implies #[trigger] frank(a, q) == frank(b, q)
            && (a[q].1.skin_tone is Some) == (b[q].1.skin_tone is Some) by {
            assert(same_entry(a[q], b[q]));
        }
        let ja = scan_end(a, k + 1);
        lemma_entries_family_run(a, b, k, ja);
        if a[k].1.skin_tone is Some && frank(a, k) != 0 {
            assert forall|bb: int| 0 <= bb < a.len() implies #[trigger] scan_end(a, bb + 1)
                == scan_end(b, bb + 1) by {
                lemma_entries_scan_end(a, b, bb + 1);
            }
            assert(position_ok(a, k) ==> position_ok(b, k)) by {
                if position_ok(a, k) {
                    let w = choose|w: int|
                        0 <= w < k && ((#[trigger] a[w]).1.skin_tone is Some) && frank(a, w) == 0
                            && k < scan_end(a, w + 1);
                    assert(0 <= w < k && (b[w].1.skin_tone is Some) && frank(b, w) == 0 && k
                        < scan_end(b, w + 1));
                }
            }
            assert(position_ok(b, k) ==> position_ok(a, k)) by {
                if position_ok(b, k) {
                    let w = choose|w: int|
                        0 <= w < k && ((#[trigger] b[w]).1.skin_tone is Some) && frank(b, w) == 0
                            && k < scan_end(b, w + 1);
                    assert(0 <= w < k && (a[w].1.skin_tone is Some) && frank(a, w) == 0 && k
                        < scan_end(a, w + 1));
                }
            }
        }
    }
    assert(layout_ok(a) == layout_ok(b)) by {
        if layout_ok(a) {
            assert forall|k: int| 0 <= k < b.len() implies #[trigger] position_ok(b, k) by {
                assert(position_ok(a, k));
            }
        }
        if layout_ok(b) {
            assert forall|k: int| 0 <= k < a.len() implies #[trigger] position_ok(a, k) by {
                assert(position_ok(b, k));
            }
        }
    }
    assert(groups_ok(a) == groups_ok(b)) by {
        assert forall|k: int| 0 <= k < a.len() implies (#[trigger] a[k]).0 == b[k].0 by {
            assert(same_entry(a[k], b[k]));
        }
        if groups_ok(a) {
            assert forall|k: int| 0 < k < b.len() implies group_rank((#[trigger] b[k - 1]).0)
                <= group_rank(b[k].0) by {
                assert(group_rank(a[k - 1].0) <= group_rank(a[k].0));
            }
        }
        if groups_ok(b) {
            assert forall|k: int| 0 < k < a.len() implies group_rank((#[trigger] a[k - 1]).0)
                <= group_rank(a[k].0) by {
                assert(group_rank(b[k - 1].0) <= group_rank(b[k].0));
            }
        }
    }
}

/// The Unicode key a tag names: a record's own sequence for `w == -1`,
/// else its variation at `w`.
pub open spec fn unicode_key_of(
    flat: Seq<(Group, crate::unicode::Emoji)>,
    m: int,
    w: int,
) -> Seq<char> {
    if w < 0 {
        flat[m].1.emoji@
    } else {
        (flat[m].1.variations@[w])@
    }
}

/// The tag names one Unicode key of the input.
pub open spec fn valid_unicode_tag(flat: Seq<(Group, crate::unicode::Emoji)>, m: int, w: int) -> bool {
    0 <= m < flat.len() && -1 <= w < flat[m].1.variations@.len()
}

/// Two different Unicode keys of the input hold the same string.
pub open spec fn unicode_keys_collide(flat: Seq<(Group, crate::unicode::Emoji)>) -> bool {
    exists|m1: int, w1: int, m2: int, w2: int|
        valid_unicode_tag(flat, m1, w1) && valid_unicode_tag(flat, m2, w2) && !(m1 == m2 && w1
            == w2) && #[trigger] unicode_key_of(flat, m1, w1) == #[trigger] unicode_key_of(
            flat,
            m2,
            w2,
        )
}

/// The shortcode key a tag names: a record's alias at `a`.
pub open spec fn alias_key_of(records: Seq<Emoji>, m: int, a: int) -> Seq<char> {
    (records[m].aliases@[a])@
}

/// The tag names one alias of the records.
pub open spec fn valid_alias_tag(records: Seq<Emoji>, m: int, a: int) -> bool {
    0 <= m < records.len() && 0 <= a < records[m].aliases@.len()
}

/// Two different aliases of the records hold the same string.
pub open spec fn shortcodes_collide(records: Seq<Emoji>) -> bool {
    exists|m1: int, a1: int, m2: int, a2: int|
        valid_alias_tag(records, m1, a1) && valid_alias_tag(records, m2, a2) && !(m1 == m2 && a1
            == a2) && #[trigger] alias_key_of(records, m1, a1) == #[trigger] alias_key_of(
            records,
            m2,
            a2,
        )
}

/// The key at `j` is some alias of the record it points at, already
/// processed: one of a record before `m`, or of the record at `m`
/// before position `a`.
pub open spec fn alias_sourced(
    records: Seq<Emoji>,
    sk: Seq<(String, usize)>,
    j: int,
    m: int,
    a_bound: int,
) -> bool {
    exists|q: int, w: int|
        valid_alias_tag(records, q, w) && (q < m || (q == m && w < a_bound)) && sk[j].1 == q
            && sk[j].0@ == #[trigger] alias_key_of(records, q, w)
}

/// The Unicode key at `j` is the sequence of the record it points at,
/// or one of that record's qualification variations.
pub open spec fn key_is_unicode_source(
    keys: Seq<(Seq<char>, int)>,
    flat: Seq<(Group, crate::unicode::Emoji)>,
    j: int,
) -> bool {
    keys[j].0 == flat[keys[j].1].1.emoji@ || exists|v: int|
        0 <= v < flat[keys[j].1].1.variations@.len() && keys[j].0 == (#[trigger] flat[keys[j].1].1.variations@[v])@
}

/// The alias the gemoji list gives the record at `m`, at position `a`.
pub open spec fn source_alias_of(
    flat: Seq<(Group, crate::unicode::Emoji)>,
    gemoji: Seq<github::Emoji>,
    m: int,
    a: int,
) -> Seq<char> {
    (spec_aliases_for(gemoji, flat[m].1.emoji@)[a])@
}

/// The tag names one alias the gemoji list gives some record.
pub open spec fn valid_source_alias(
    flat: Seq<(Group, crate::unicode::Emoji)>,
    gemoji: Seq<github::Emoji>,
    m: int,
    a: int,
) -> bool {
    0 <= m < flat.len() && 0 <= a < spec_aliases_for(gemoji, flat[m].1.emoji@).len()
}

/// Two different aliases the gemoji list gives the input's records
/// hold the same string.
pub open spec fn gemoji_aliases_collide(
    flat: Seq<(Group, crate::unicode::Emoji)>,
    gemoji: Seq<github::Emoji>,
) -> bool {
    exists|m1: int, a1: int, m2: int, a2: int|
        valid_source_alias(flat, gemoji, m1, a1) && valid_source_alias(flat, gemoji, m2, a2) && !(
        m1 == m2 && a1 == a2) && #[trigger] source_alias_of(flat, gemoji, m1, a1)
            == #[trigger] source_alias_of(flat, gemoji, m2, a2)
}

/// Sequences carrying the same data hold the same key collisions.
proof fn lemma_entries_collisions(
    a: Seq<(Group, crate::unicode::Emoji)>,
    b: Seq<(Group, crate::unicode::Emoji)>,
    gemoji: Seq<github::Emoji>,
)
    requires
        entries_match(a, b),
    ensures
        unicode_keys_collide(a) == unicode_keys_collide(b),
        gemoji_aliases_collide(a, gemoji) == gemoji_aliases_collide(b, gemoji),
{
    assert forall|m: int, w: int| valid_unicode_tag(a, m, w) implies valid_unicode_tag(b, m, w)
        && #[trigger] unicode_key_of(a, m, w) == unicode_key_of(b, m, w) by {
        assert(same_entry(a[m], b[m]));
        if w >= 0 {
            assert(a[m].1.variations@[w] == b[m].1.variations@[w]);
        }
    }
    assert forall|m: int, w: int| valid_unicode_tag(b, m, w) implies valid_unicode_tag(a, m, w)
        && #[trigger] unicode_key_of(b, m, w) == unicode_key_of(a, m, w) by {
        assert(same_entry(a[m], b[m]));
        if w >= 0 {
            assert(a[m].1.variations@[w] == b[m].1.variations@[w]);
        }
    }
    if unicode_keys_collide(a) {
        let (m1, w1, m2, w2) = choose|m1: int, w1: int, m2: int, w2: int|
            valid_unicode_tag(a, m1, w1) && valid_unicode_tag(a, m2, w2) && !(m1 == m2 && w1 == w2)
                && #[trigger] unicode_key_of(a, m1, w1) == #[trigger] unicode_key_of(a, m2, w2);
        assert(unicode_key_of(b, m1, w1) == unicode_key_of(b, m2, w2));
        assert(unicode_keys_collide(b));
    }
    if unicode_keys_collide(b) {
        let (m1, w1, m2, w2) = choose|m1: int, w1: int, m2: int, w2: int|
            valid_unicode_tag(b, m1, w1) && valid_unicode_tag(b, m2, w2) && !(m1 == m2 && w1 == w2)
                && #[trigger] unicode_key_of(b, m1, w1) == #[trigger] unicode_key_of(b, m2, w2);
        assert(unicode_key_of(a, m1, w1) == unicode_key_of(a, m2, w2));
        assert(unicode_keys_collide(a));
    }
    assert forall|m: int, x: int| valid_source_alias(a, gemoji, m, x) implies valid_source_alias(
        b,
        gemoji,
        m,
        x,
    ) && #[trigger] source_alias_of(a, gemoji, m, x) == source_alias_of(b, gemoji, m, x) by {
        assert(same_entry(a[m], b[m]));
    }
    assert forall|m: int, x: int| valid_source_alias(b, gemoji, m, x) implies valid_source_alias(
        a,
        gemoji,
        m,
        x,
    ) && #[trigger] source_alias_of(b, gemoji, m, x) == source_alias_of(a, gemoji, m, x) by {
        assert(same_entry(a[m], b[m]));
    }
    if gemoji_aliases_collide(a, gemoji) {
        let (m1, a1, m2, a2) = choose|m1: int, a1: int, m2: int, a2: int|
            valid_source_alias(a, gemoji, m1, a1) && valid_source_alias(a, gemoji, m2, a2) && !(m1
                == m2 && a1 == a2) && #[trigger] source_alias_of(a, gemoji, m1, a1)
                == #[trigger] source_alias_of(a, gemoji, m2, a2);
        assert(source_alias_of(b, gemoji, m1, a1) == source_alias_of(b, gemoji, m2, a2));
        assert(gemoji_aliases_collide(b, gemoji));
    }
    if gemoji_aliases_collide(b, gemoji) {
        let (m1, a1, m2, a2) = choose|m1: int, a1: int, m2: int, a2: int|
            valid_source_alias(b, gemoji, m1, a1) && valid_source_alias(b, gemoji, m2, a2) && !(m1
                == m2 && a1 == a2) && #[trigger] source_alias_of(b, gemoji, m1, a1)
                == #[trigger] source_alias_of(b, gemoji, m2, a2);
        assert(source_alias_of(a, gemoji, m1, a1) == source_alias_of(a, gemoji, m2, a2));
        assert(gemoji_aliases_collide(a, gemoji));
    }
}

/// A key that survives later pushes keeps resolving.
proof fn lemma_key_push_preserves(
    before: Seq<(String, usize)>,
    after: Seq<(String, usize)>,
    k: Seq<char>,
    v: int,
)
    requires
        after.len() == before.len() + 1,
        forall|j: int| 0 <= j < before.len() ==> after[j] == before[j],
        has_key(kview(before), k, v),
    ensures
        has_key(kview(after), k, v),
{
    let j = choose|j: int| 0 <= j < kview(before).len() && kview(before)[j] == (k, v);
    assert(after[j] == before[j]);
    assert(kview(after)[j] == (k, v));
}

/// The tone rank of a flattened entry.
pub open spec fn frank(flat: Seq<(Group, crate::unicode::Emoji)>, k: int) -> int {
    tone_rank(flat_tone(flat[k]))
}

/// An entry that ends a family run: no tone, or the default tone that
/// anchors the next family.
pub open spec fn stops_run(p: (Group, crate::unicode::Emoji)) -> bool {
    p.1.skin_tone is None || tone_rank(flat_tone(p)) == 0
}

/// The first position at or after `j` that ends a family run, or the
/// input's end.
pub open spec fn scan_end(flat: Seq<(Group, crate::unicode::Emoji)>, j: int) -> int
    decreases flat.len() - j,
{
    if j >= flat.len() {
        flat.len() as int
    } else if stops_run(flat[j]) {
        j
    } else {
        scan_end(flat, j + 1)
    }
}

/// What one position of the input must look like: a record with no
/// skin-tone dimension, a default member opening a well-formed family
/// run of size 6 or 26, or a variant inside some default's run.
pub open spec fn position_ok(flat: Seq<(Group, crate::unicode::Emoji)>, i: int) -> bool {
    if flat[i].1.skin_tone is None {
        true
    } else if frank(flat, i) == 0 {
        let j = scan_end(flat, i + 1);
        family_run(flat, i, j) && (j - i == 6 || j - i == 26)
    } else {
        exists|b: int|
            0 <= b < i && (#[trigger] flat[b]).1.skin_tone is Some && frank(flat, b) == 0 && i
                < scan_end(flat, b + 1)
    }
}

/// Every position of the input is acceptable: exactly the inputs whose
/// skin-tone layout the builder accepts.
pub open spec fn layout_ok(flat: Seq<(Group, crate::unicode::Emoji)>) -> bool {
    forall|i: int| 0 <= i < flat.len() ==> #[trigger] position_ok(flat, i)
}

/// Group ranks never decrease along the input: exactly the inputs
/// whose group order the builder accepts.
pub open spec fn groups_ok(flat: Seq<(Group, crate::unicode::Emoji)>) -> bool {
    forall|k: int|
        0 < k < flat.len() ==> group_rank((#[trigger] flat[k - 1]).0) <= group_rank(flat[k].0)
}

/// A run's end is where the first stopping entry stands.
proof fn lemma_scan_end_is(flat: Seq<(Group, crate::unicode::Emoji)>, start: int, j: int)
    requires
        0 <= start <= j <= flat.len(),
        forall|k: int| start <= k < j ==> !stops_run(#[trigger] flat[k]),
        j == flat.len() || stops_run(flat[j]),
    ensures
        scan_end(flat, start) == j,
    decreases j - start,
{
    if start < j {
        lemma_scan_end_is(flat, start + 1, j);
    }
}

/// A run's end never lies before its start.
proof fn lemma_scan_end_ge(flat: Seq<(Group, crate::unicode::Emoji)>, start: int)
    requires
        0 <= start <= flat.len(),
    ensures
        scan_end(flat, start) >= start,
    decreases flat.len() - start,
{
    if start < flat.len() && !stops_run(flat[start]) {
        lemma_scan_end_ge(flat, start + 1);
    }
}

/// A run's end lies past every non-stopping prefix.
proof fn lemma_scan_end_past(flat: Seq<(Group, crate::unicode::Emoji)>, start: int, j: int)
    requires
        0 <= start <= j < flat.len(),
        forall|k: int| start <= k <= j ==> !stops_run(#[trigger] flat[k]),
    ensures
        scan_end(flat, start) > j,
    decreases j - start,
{
    if start < j {
        lemma_scan_end_past(flat, start + 1, j);
    } else {
        lemma_scan_end_ge(flat, start + 1);
    }
}

/// The record at `k` matches its source entry.
pub open spec fn rec_matches(
    records: Seq<Emoji>,
    flat: Seq<(Group, crate::unicode::Emoji)>,
    gemoji: Seq<github::Emoji>,
    k: int,
) -> bool {
    built_record_matches(records[k], flat[k], gemoji)
}

/// The group rank does not drop from `k - 1` to `k`.
pub open spec fn grp_step(records: Seq<Emoji>, k: int) -> bool {
    group_rank(records[k - 1].group) <= group_rank(records[k].group)
}

/// The record at `m` carries its family's links and its own tone.
pub open spec fn fam_link(
    records: Seq<Emoji>,
    flat: Seq<(Group, crate::unicode::Emoji)>,
    iu: usize,
    nn: usize,
    m: int,
) -> bool {
    records[m].skin_tone == Some((iu, nn, flat_tone(flat[m])))
}

/// The entries `[i, j)` form one skin-tone family run: the first has
/// the default tone, and the entry at offset `k` carries the tone of
/// rank `k` — the fixed enumeration order with no tone skipped.
pub open spec fn family_run(flat: Seq<(Group, crate::unicode::Emoji)>, i: int, j: int) -> bool {
    &&& 0 <= i < j <= flat.len()
    &&& flat[i].1.skin_tone is Some
    &&& frank(flat, i) == 0
    &&& forall|k: int| i < k < j ==> (#[trigger] flat[k]).1.skin_tone is Some
    &&& forall|k: int| i < k < j ==> 0 < #[trigger] frank(flat, k)
    &&& forall|k1: int, k2: int|
        i < k1 < k2 < j ==> #[trigger] frank(flat, k1) < #[trigger] frank(flat, k2)
    &&& forall|k: int| i <= k < j ==> #[trigger] frank(flat, k) == k - i
}

/// Find the end of the family run that starts at `i`, demanding tones
/// of strictly increasing rank and a family size of 6 or 26.
fn scan_family(flat: &Vec<(Group, crate::unicode::Emoji)>, i: usize) -> (r: Result<
    usize,
    BuildError,
>)
    requires
        i < flat@.len(),
        flat@[i as int].1.skin_tone is Some,
        frank(flat@, i as int) == 0,
    ensures
        r matches Ok(j) ==> {
            &&& family_run(flat@, i as int, j as int)
            &&& (j - i == 6 || j - i == 26)
            &&& j as int == scan_end(flat@, i as int + 1)
        },
        r matches Err(e) ==> e == BuildError::BadFamily && !(family_run(
            flat@,
            i as int,
            scan_end(flat@, i as int + 1),
        ) && (scan_end(flat@, i as int + 1) - i == 6 || scan_end(flat@, i as int + 1) - i == 26)),
{
    let n = flat.len();
    let mut j: usize = i + 1;
    loop
        invariant
            i < j <= n,
            n == flat@.len(),
            flat@[i as int].1.skin_tone is Some,
            frank(flat@, i as int) == 0,
            forall|k: int| i < k < j ==> (#[trigger] flat@[k]).1.skin_tone is Some,
            forall|k: int| i < k < j ==> #[trigger] frank(flat@, k) == k - i,
        ensures
            family_run(flat@, i as int, j as int),
            j as int == scan_end(flat@, i as int + 1),
        decreases n - j,
    {
        proof {
            assert forall|k: int| i + 1 <= k < j implies !stops_run(#[trigger] flat@[k]) by {
                assert(flat@[k].1.skin_tone is Some);
                assert(frank(flat@, k) == k - i);
            }
        }
        if j >= n {
            proof {
                lemma_scan_end_is(flat@, i as int + 1, j as int);
            }
            break;
        }
        let stop = match flat[j].1.skin_tone {
            None => true,
            Some(t) => t.rank() == 0,
        };
        if stop {
            proof {
                assert(stops_run(flat@[j as int]));
                lemma_scan_end_is(flat@, i as int + 1, j as int);
            }
            break;
        }
        let rk = match flat[j].1.skin_tone {
            Some(t) => t.rank(),
            None => {
                proof {
                    assert(false);
                }
                0
            },
        };
        proof {
            assert(frank(flat@, j as int) == rk as int);
            assert(!stops_run(flat@[j as int]));
        }
        if rk as usize != j - i {
            // the member at this offset must carry exactly the tone of
            // this rank: the enumeration order skips nothing
            proof {
                assert forall|k: int| i + 1 <= k <= j implies !stops_run(#[trigger] flat@[k]) by {
                    if k < j {
                        assert(flat@[k].1.skin_tone is Some);
                        assert(frank(flat@, k) == k - i);
                    }
                }
                lemma_scan_end_past(flat@, i as int + 1, j as int);
                let e = scan_end(flat@, i as int + 1);
                assert(e > j);
                assert(!family_run(flat@, i as int, e)) by {
                    if family_run(flat@, i as int, e) {
                        assert(frank(flat@, j as int) == j - i);
                        assert(false);
                    }
                }
            }
            return Err(BuildError::BadFamily);
        }
        j = j + 1;
    }
    let fam_n = j - i;
    if fam_n != 6 && fam_n != 26 {
        return Err(BuildError::BadFamily);
    }
    Ok(j)
}

/// A whole family run laid out with its links satisfies the layout
/// invariant at each of its members.
proof fn lemma_family_tone_ok(
    s: Seq<Emoji>,
    flat: Seq<(Group, crate::unicode::Emoji)>,
    iu: usize,
    ju: usize,
    m: int,
)
    requires
        family_run(flat, iu as int, ju as int),
        ju as int <= flat.len(),
        ju - iu == 6 || ju - iu == 26,
        s.len() >= ju,
        forall|q: int| iu <= q < ju ==> #[trigger] fam_link(s, flat, iu, (ju - iu) as usize, q),
        iu <= m < ju,
    ensures
        tone_ok(s, m),
{
    let start = iu as int;
    let fam_n = (ju - iu) as usize;
    assert(fam_link(s, flat, iu, fam_n, m));
    assert(s[m].skin_tone == Some((iu, fam_n, flat_tone(flat[m]))));
    assert forall|q: int| start <= q < start + fam_n as int implies same_family(
        s,
        q,
        iu,
        fam_n,
    ) by {
        assert(fam_link(s, flat, iu, fam_n, q));
    }
    assert forall|q1: int, q2: int|
        start <= q1 < q2 < start + fam_n as int implies tone_rank(member_tone(s, q1)) < tone_rank(
        member_tone(s, q2),
    ) by {
        assert(fam_link(s, flat, iu, fam_n, q1));
        assert(fam_link(s, flat, iu, fam_n, q2));
        assert(member_tone(s, q1) == flat_tone(flat[q1]));
        assert(member_tone(s, q2) == flat_tone(flat[q2]));
        if q1 == start {
            assert(frank(flat, q1) == 0);
            assert(0 < frank(flat, q2));
        } else {
            assert(frank(flat, q1) < frank(flat, q2));
        }
    }
    assert forall|q: int| start <= q < start + fam_n as int implies tone_rank(
        #[trigger] member_tone(s, q),
    ) == q - start by {
        assert(fam_link(s, flat, iu, fam_n, q));
        assert(member_tone(s, q) == flat_tone(flat[q]));
        assert(frank(flat, q) == q - start);
    }
    assert(fam_link(s, flat, iu, fam_n, start));
    assert(member_tone(s, start) == flat_tone(flat[start]));
    assert(tone_rank(member_tone(s, start)) == 0);
    assert(member_tone(s, start) == SkinTone::Default);
}

/// Append the members of the family run `[i, j)` to the records, each
/// linked to the run's start, size and its own tone.
fn push_family(
    records: &mut Vec<Emoji>,
    flat: &Vec<(Group, crate::unicode::Emoji)>,
    gemoji: &Vec<github::Emoji>,
    i: usize,
    j: usize,
) -> (r: Result<(), BuildError>)
    requires
        family_run(flat@, i as int, j as int),
        j - i == 6 || j - i == 26,
        j <= flat@.len(),
        old(records)@.len() == i,
        forall|k: int| 0 <= k < i ==> #[trigger] rec_matches(old(records)@, flat@, gemoji@, k),
        forall|k: int| 0 <= k < i ==> #[trigger] tone_ok(old(records)@, k),
        forall|k: int| 0 < k < i ==> #[trigger] grp_step(old(records)@, k),
    ensures
        r matches Ok(u) ==> {
            &&& final(records)@.len() == j
            &&& forall|k: int| 0 <= k < j ==> #[trigger] rec_matches(
                final(records)@,
                flat@,
                gemoji@,
                k,
            )
            &&& forall|k: int| 0 <= k < j ==> #[trigger] tone_ok(final(records)@, k)
            &&& forall|k: int| 0 < k < j ==> #[trigger] grp_step(final(records)@, k)
        },
        r matches Err(e) ==> e == BuildError::GroupDisorder && !groups_ok(flat@),
{
    let fam_n = j - i;
    let mut k: usize = i;
    while k < j
        invariant
            family_run(flat@, i as int, j as int),
            fam_n == 6 || fam_n == 26,
            j <= flat@.len(),
            fam_n == j - i,
            i <= k <= j,
            records@.len() == k,
            forall|m: int| 0 <= m < k ==> #[trigger] rec_matches(records@, flat@, gemoji@, m),
            forall|m: int| 0 <= m < i ==> #[trigger] tone_ok(records@, m),
            forall|m: int| i <= m < k ==> #[trigger] fam_link(records@, flat@, i, fam_n, m),
            forall|m: int| 0 < m < k ==> #[trigger] grp_step(records@, m),
        decreases j - k,
    {
        if k > 0 {
            if records[k - 1].group.rank() > flat[k].0.rank() {
                proof {
                    assert(rec_matches(records@, flat@, gemoji@, k as int - 1));
                    assert(!groups_ok(flat@)) by {
                        if groups_ok(flat@) {
                            assert(group_rank(flat@[k as int - 1].0) <= group_rank(
                                flat@[k as int].0,
                            ));
                            assert(false);
                        }
                    }
                }
                return Err(BuildError::GroupDisorder);
            }
        }
        let tm = match flat[k].1.skin_tone {
            Some(t) => t,
            None => {
                proof {
                    assert(false);
                }
                SkinTone::Default
            },
        };
        let rec = Emoji {
            emoji: flat[k].1.emoji.clone(),
            name: flat[k].1.name.clone(),
            unicode_version: flat[k].1.unicode_version,
            group: flat[k].0,
            skin_tone: Some((i, fam_n, tm)),
            aliases: aliases_for(gemoji, &flat[k].1.emoji),
        };
        let ghost before = records@;
        records.push(rec);
        proof {
            assert forall|m: int| 0 <= m < k + 1 implies #[trigger] rec_matches(
                records@,
                flat@,
                gemoji@,
                m,
            ) by {
                if m < k {
                    assert(rec_matches(before, flat@, gemoji@, m));
                    assert(records@[m] == before[m]);
                } else {
                    assert(records@[m] == rec);
                }
            }
            assert forall|m: int| 0 <= m < i implies #[trigger] tone_ok(records@, m) by {
                assert(tone_ok(before, m));
                lemma_tone_ok_push(before, rec, m);
            }
            assert forall|m: int| i <= m < k + 1 implies #[trigger] fam_link(
                records@,
                flat@,
                i,
                fam_n,
                m,
            ) by {
                if m < k {
                    assert(fam_link(before, flat@, i, fam_n, m));
                    assert(records@[m] == before[m]);
                } else {
                    assert(records@[m] == rec);
                    assert(flat_tone(flat@[m]) == tm);
                }
            }
            assert forall|m: int| 0 < m < k + 1 implies #[trigger] grp_step(records@, m) by {
                if m < k {
                    assert(grp_step(before, m));
                    assert(records@[m - 1] == before[m - 1]);
                    assert(records@[m] == before[m]);
                } else if m == k && k > 0 {
                    assert(records@[m - 1] == before[m - 1]);
                    assert(records@[m] == rec);
                }
            }
        }
        k = k + 1;
    }
    proof {
        assert forall|m: int| 0 <= m < j implies #[trigger] tone_ok(records@, m) by {
            if m >= i {
                lemma_family_tone_ok(records@, flat@, i, j, m);
            }
        }
    }
    Ok(())
}

/// Lay out the table records in source order: copy each entry's data,
/// attach its aliases, compute each skin-tone family's start, size and
/// member tones, and demand contiguous families in fixed tone order
/// and contiguous groups.
#[verifier::rlimit(50)]
fn lay_out_records(flat: &Vec<(Group, crate::unicode::Emoji)>, gemoji: &Vec<github::Emoji>) -> (r:
    Result<Vec<Emoji>, BuildError>)
    ensures
        r matches Ok(records) ==> {
            &&& records@.len() == flat@.len()
            &&& forall|k: int|
                0 <= k < flat@.len() ==> built_record_matches(
                    #[trigger] records@[k],
                    flat@[k],
                    gemoji@,
                )
            &&& crate::table::tone_linked(records@)
            &&& crate::table::groups_ordered(records@)
        },
        r is Ok <==> layout_ok(flat@) && groups_ok(flat@),
        r matches Err(e) ==> (e == BuildError::BadFamily || e == BuildError::GroupDisorder) && (e
            == BuildError::BadFamily ==> !layout_ok(flat@)) && (e == BuildError::GroupDisorder
            ==> !groups_ok(flat@)),
{
    let n = flat.len();
    let mut records: Vec<Emoji> = Vec::new();
    let mut i: usize = 0;
    while i < n
        invariant
            n == flat@.len(),
            i <= n,
            records@.len() == i,
            forall|k: int| 0 <= k < i ==> #[trigger] rec_matches(records@, flat@, gemoji@, k),
            forall|k: int| 0 <= k < i ==> #[trigger] tone_ok(records@, k),
            forall|k: int| 0 < k < i ==> #[trigger] grp_step(records@, k),
            forall|k: int| 0 <= k < i ==> #[trigger] position_ok(flat@, k),
            forall|b: int|
                0 <= b < i && (#[trigger] flat@[b]).1.skin_tone is Some && frank(flat@, b) == 0
                    ==> scan_end(flat@, b + 1) <= i,
        decreases n - i,
    {
        let defaulted = match flat[i].1.skin_tone {
            None => true,
            Some(t) => t.rank() == 0,
        };
        if !defaulted {
            // a variant with no preceding default member's run over it
            proof {
                assert(!position_ok(flat@, i as int)) by {
                    if position_ok(flat@, i as int) {
                        let b = choose|b: int|
                            0 <= b < i as int && ((#[trigger] flat@[b]).1.skin_tone is Some)
                                && frank(flat@, b) == 0 && (i as int) < scan_end(flat@, b + 1);
                        assert(scan_end(flat@, b + 1) <= i as int);
                        assert(false);
                    }
                }
            }
            return Err(BuildError::BadFamily);
        }
        let has_tone = flat[i].1.skin_tone.is_some();
        if !has_tone {
            // a record with no skin-tone dimension
            if i > 0 {
                if records[i - 1].group.rank() > flat[i].0.rank() {
                    proof {
                        assert(rec_matches(records@, flat@, gemoji@, i as int - 1));
                        assert(!groups_ok(flat@)) by {
                            if groups_ok(flat@) {
                                assert(group_rank(flat@[i as int - 1].0) <= group_rank(
                                    flat@[i as int].0,
                                ));
                                assert(false);
                            }
                        }
                    }
                    return Err(BuildError::GroupDisorder);
                }
            }
            let rec = Emoji {
                emoji: flat[i].1.emoji.clone(),
                name: flat[i].1.name.clone(),
                unicode_version: flat[i].1.unicode_version,
                group: flat[i].0,
                skin_tone: None,
                aliases: aliases_for(gemoji, &flat[i].1.emoji),
            };
            let ghost before = records@;
            records.push(rec);
            proof {
                assert forall|k: int| 0 <= k < i + 1 implies #[trigger] rec_matches(
                    records@,
                    flat@,
                    gemoji@,
                    k,
                ) by {
                    if k < i {
                        assert(rec_matches(before, flat@, gemoji@, k));
                        assert(records@[k] == before[k]);
                    } else {
                        assert(records@[k] == rec);
                    }
                }
                assert forall|k: int| 0 <= k < i + 1 implies #[trigger] tone_ok(records@, k) by {
                    if k < i {
                        assert(tone_ok(before, k));
                        lemma_tone_ok_push(before, rec, k);
                    } else {
                        assert(records@[k].skin_tone is None);
                    }
                }
                assert forall|k: int| 0 < k < i + 1 implies #[trigger] grp_step(records@, k) by {
                    if k < i {
                        assert(grp_step(before, k));
                        assert(records@[k - 1] == before[k - 1]);
                        assert(records@[k] == before[k]);
                    } else {
                        assert(records@[k - 1] == before[k - 1]);
                        assert(records@[k] == rec);
                    }
                }
                assert forall|k: int| 0 <= k < i + 1 implies #[trigger] position_ok(flat@, k) by {
                    if k == i {
                        assert(flat@[k].1.skin_tone is None);
                    }
                }
            }
            i = i + 1;
        } else {
            // the default member of a family
            proof {
                assert(frank(flat@, i as int) == 0);
            }
            let j = match scan_family(flat, i) {
                Ok(j) => j,
                Err(e) => {
                    proof {
                        assert(!position_ok(flat@, i as int));
                        assert(!layout_ok(flat@));
                    }
                    return Err(e);
                },
            };
            match push_family(&mut records, flat, gemoji, i, j) {
                Ok(_u) => {},
                Err(e) => {
                    return Err(e);
                },
            }
            proof {
                assert(position_ok(flat@, i as int));
                assert forall|k: int| 0 <= k < j implies #[trigger] position_ok(flat@, k) by {
                    if (i as int) < k {
                        // a variant inside the run its default opened
                        assert(flat@[k].1.skin_tone is Some);
                        assert(0 < frank(flat@, k));
                        assert(0 <= i < k && (flat@[i as int].1.skin_tone is Some) && frank(
                            flat@,
                            i as int,
                        ) == 0 && k < scan_end(flat@, i as int + 1));
                    }
                }
                assert forall|b: int|
                    0 <= b < j && (#[trigger] flat@[b]).1.skin_tone is Some && frank(flat@, b)
                        == 0 implies scan_end(flat@, b + 1) <= j by {
                    if (i as int) < b {
                        assert(0 < frank(flat@, b));
                        assert(false);
                    }
                }
            }
            i = j;
        }
    }
    proof {
        assert forall|k: int| 0 <= k < flat@.len() implies built_record_matches(
            #[trigger] records@[k],
            flat@[k],
            gemoji@,
        ) by {
            assert(rec_matches(records@, flat@, gemoji@, k));
        }
        assert forall|k: int| 0 <= k < records@.len() implies #[trigger] tone_ok(records@, k) by {}
        assert forall|a: int, b: int|
            0 <= a < b < records@.len() implies group_rank((#[trigger] records@[a]).group)
            <= group_rank((#[trigger] records@[b]).group) by {
            assert forall|k: int| 0 < k < records@.len() implies group_rank(
                records@[k - 1].group,
            ) <= group_rank((#[trigger] records@[k]).group) by {
                assert(grp_step(records@, k));
            }
            lemma_rank_le(records@, a, b);
        }
        assert(layout_ok(flat@));
        assert(groups_ok(flat@)) by {
            assert forall|k: int|
                0 < k < flat@.len() implies group_rank((#[trigger] flat@[k - 1]).0) <= group_rank(
                flat@[k].0,
            ) by {
                assert(grp_step(records@, k));
                assert(rec_matches(records@, flat@, gemoji@, k - 1));
                assert(rec_matches(records@, flat@, gemoji@, k));
            }
        }
    }
    Ok(records)
}

/// Register every record's sequence and every variation of it in the
/// Unicode key map, with a fatal error on any collision.
fn register_unicode_keys(
    records: &Vec<Emoji>,
    flat: &Vec<(Group, crate::unicode::Emoji)>,
) -> (r: Result<Vec<(String, usize)>, BuildError>)
    requires
        records@.len() == flat@.len(),
        forall|k: int|
            0 <= k < flat@.len() ==> (#[trigger] records@[k]).emoji@ == flat@[k].1.emoji@,
    ensures
        r matches Ok(uk) ==> {
            &&& keys_in_range(kview(uk@), records@.len() as int)
            &&& keys_distinct(kview(uk@))
            &&& forall|m: int|
                0 <= m < records@.len() ==> has_key(
                    kview(uk@),
                    (#[trigger] records@[m]).emoji@,
                    m,
                )
            &&& forall|k: int, v: int|
                0 <= k < flat@.len() && 0 <= v < flat@[k].1.variations@.len() ==> has_key(
                    kview(uk@),
                    (#[trigger] flat@[k].1.variations@[v])@,
                    k,
                )
            &&& forall|j: int|
                0 <= j < kview(uk@).len() ==> #[trigger] key_is_unicode_source(
                    kview(uk@),
                    flat@,
                    j,
                )
        },
        r matches Err(e) ==> e == BuildError::DuplicateUnicodeKey && unicode_keys_collide(flat@),
{
    let n = records.len();
    let mut uk: Vec<(String, usize)> = Vec::new();
    let mut m: usize = 0;
    while m < n
        invariant
            n == records@.len(),
            n == flat@.len(),
            m <= n,
            forall|k: int|
                0 <= k < flat@.len() ==> (#[trigger] records@[k]).emoji@ == flat@[k].1.emoji@,
            forall|j: int| 0 <= j < uk@.len() ==> (#[trigger] uk@[j]).1 < n,
            forall|j1: int, j2: int|
                0 <= j1 < j2 < uk@.len() ==> (#[trigger] uk@[j1]).0@ != (#[trigger] uk@[j2]).0@,
            forall|q: int|
                0 <= q < m ==> has_key(kview(uk@), (#[trigger] records@[q]).emoji@, q),
            forall|k: int, v: int|
                0 <= k < m && 0 <= v < flat@[k].1.variations@.len() ==> has_key(
                    kview(uk@),
                    (#[trigger] flat@[k].1.variations@[v])@,
                    k,
                ),
            forall|j: int|
                0 <= j < uk@.len() ==> exists|q: int, w: int|
                    valid_unicode_tag(flat@, q, w) && q < m && uk@[j].1 == q && (
                    #[trigger] uk@[j]).0@ == unicode_key_of(flat@, q, w),
        decreases n - m,
    {
        if key_present(&uk, &records[m].emoji) {
            proof {
                let j = choose|j: int|
                    0 <= j < uk@.len() && (#[trigger] uk@[j]).0@ == records@[m as int].emoji@;
                let (q, w) = choose|q: int, w: int|
                    valid_unicode_tag(flat@, q, w) && q < m && uk@[j].1 == q && (
                    #[trigger] uk@[j]).0@ == unicode_key_of(flat@, q, w);
                assert(valid_unicode_tag(flat@, m as int, -1));
                assert(unicode_key_of(flat@, m as int, -1) == records@[m as int].emoji@);
                assert(unicode_key_of(flat@, q, w) == unicode_key_of(flat@, m as int, -1));
                assert(unicode_keys_collide(flat@));
            }
            return Err(BuildError::DuplicateUnicodeKey);
        }
        let ghost before = uk@;
        uk.push((records[m].emoji.clone(), m));
        proof {
            assert forall|j: int| 0 <= j < uk@.len() implies exists|q: int, w: int|
                valid_unicode_tag(flat@, q, w) && (q < m || (q == m && w < 0)) && uk@[j].1 == q && (
            #[trigger] uk@[j]).0@ == unicode_key_of(flat@, q, w) by {
                if j < uk@.len() - 1 {
                    assert(uk@[j] == before[j]);
                    let (q, w) = choose|q: int, w: int|
                        valid_unicode_tag(flat@, q, w) && q < m && before[j].1 == q && (
                        #[trigger] before[j]).0@ == unicode_key_of(flat@, q, w);
                    assert(valid_unicode_tag(flat@, q, w) && (q < m || (q == m && w < 0))
                        && uk@[j].1 == q && uk@[j].0@ == unicode_key_of(flat@, q, w));
                } else {
                    assert(valid_unicode_tag(flat@, m as int, -1) && uk@[j].1 == m as int
                        && uk@[j].0@ == unicode_key_of(flat@, m as int, -1));
                }
            }
            assert(uk@[uk@.len() - 1] == (records@[m as int].emoji, m));
            assert(kview(uk@)[uk@.len() - 1] == (records@[m as int].emoji@, m as int));
            assert(has_key(kview(uk@), records@[m as int].emoji@, m as int));
            assert forall|j1: int, j2: int|
                0 <= j1 < j2 < uk@.len() implies (#[trigger] uk@[j1]).0@ != (
            #[trigger] uk@[j2]).0@ by {
                if j2 < uk@.len() - 1 {
                    assert(uk@[j1] == before[j1] && uk@[j2] == before[j2]);
                } else {
                    assert(uk@[j1] == before[j1]);
                }
            }
            assert forall|q: int| 0 <= q < m implies has_key(
                kview(uk@),
                (#[trigger] records@[q]).emoji@,
                q,
            ) by {
                lemma_key_push_preserves(before, uk@, records@[q].emoji@, q);
            }
            assert forall|k: int, v: int|
                0 <= k < m && 0 <= v < flat@[k].1.variations@.len() implies has_key(
                kview(uk@),
                (#[trigger] flat@[k].1.variations@[v])@,
                k,
            ) by {
                lemma_key_push_preserves(before, uk@, flat@[k].1.variations@[v]@, k);
            }
        }
        let nv = flat[m].1.variations.len();
        let mut v: usize = 0;
        while v < nv
            invariant
                n == records@.len(),
                n == flat@.len(),
                m < n,
                nv == flat@[m as int].1.variations@.len(),
                v <= nv,
                forall|j: int| 0 <= j < uk@.len() ==> (#[trigger] uk@[j]).1 < n,
                forall|j1: int, j2: int|
                    0 <= j1 < j2 < uk@.len() ==> (#[trigger] uk@[j1]).0@ != (
                    #[trigger] uk@[j2]).0@,
                forall|q: int|
                    0 <= q <= m ==> has_key(kview(uk@), (#[trigger] records@[q]).emoji@, q),
                forall|k: int, w: int|
                    0 <= k < m && 0 <= w < flat@[k].1.variations@.len() ==> has_key(
                        kview(uk@),
                        (#[trigger] flat@[k].1.variations@[w])@,
                        k,
                    ),
                forall|w: int|
                    0 <= w < v ==> has_key(
                        kview(uk@),
                        (#[trigger] flat@[m as int].1.variations@[w])@,
                        m as int,
                    ),
                forall|j: int|
                    0 <= j < uk@.len() ==> exists|q: int, w: int|
                        valid_unicode_tag(flat@, q, w) && (q < m || (q == m && w < v)) && uk@[j].1
                            == q && (#[trigger] uk@[j]).0@ == unicode_key_of(flat@, q, w),
            decreases nv - v,
        {
            if key_present(&uk, &flat[m].1.variations[v]) {
                proof {
                    let j = choose|j: int|
                        0 <= j < uk@.len() && (#[trigger] uk@[j]).0@ == flat@[m as int].1.variations@[v as int]@;
                    let (q, w) = choose|q: int, w: int|
                        valid_unicode_tag(flat@, q, w) && (q < m || (q == m && w < v)) && uk@[j].1
                            == q && (#[trigger] uk@[j]).0@ == unicode_key_of(flat@, q, w);
                    assert(valid_unicode_tag(flat@, m as int, v as int));
                    assert(unicode_key_of(flat@, m as int, v as int)
                        == flat@[m as int].1.variations@[v as int]@);
                    assert(unicode_key_of(flat@, q, w) == unicode_key_of(flat@, m as int, v as int));
                    assert(unicode_keys_collide(flat@));
                }
                return Err(BuildError::DuplicateUnicodeKey);
            }
            let ghost before = uk@;
            uk.push((flat[m].1.variations[v].clone(), m));
            proof {
                assert forall|j: int| 0 <= j < uk@.len() implies exists|q: int, w: int|
                    valid_unicode_tag(flat@, q, w) && (q < m || (q == m && w < v + 1)) && uk@[j].1
                        == q && (#[trigger] uk@[j]).0@ == unicode_key_of(flat@, q, w) by {
                    if j < uk@.len() - 1 {
                        assert(uk@[j] == before[j]);
                        let (q, w) = choose|q: int, w: int|
                            valid_unicode_tag(flat@, q, w) && (q < m || (q == m && w < v))
                                && before[j].1 == q && (#[trigger] before[j]).0@ == unicode_key_of(
                                flat@,
                                q,
                                w,
                            );
                        assert(valid_unicode_tag(flat@, q, w) && (q < m || (q == m && w < v + 1))
                            && uk@[j].1 == q && uk@[j].0@ == unicode_key_of(flat@, q, w));
                    } else {
                        assert(valid_unicode_tag(flat@, m as int, v as int) && uk@[j].1 == m as int
                            && uk@[j].0@ == unicode_key_of(flat@, m as int, v as int));
                    }
                }
                assert(uk@[uk@.len() - 1] == (flat@[m as int].1.variations@[v as int], m));
                assert(kview(uk@)[uk@.len() - 1] == (
                    flat@[m as int].1.variations@[v as int]@,
                    m as int,
                ));
                assert(has_key(kview(uk@), flat@[m as int].1.variations@[v as int]@, m as int));
                assert forall|j1: int, j2: int|
                    0 <= j1 < j2 < uk@.len() implies (#[trigger] uk@[j1]).0@ != (
                #[trigger] uk@[j2]).0@ by {
                    if j2 < uk@.len() - 1 {
                        assert(uk@[j1] == before[j1] && uk@[j2] == before[j2]);
                    } else {
                        assert(uk@[j1] == before[j1]);
                    }
                }
                assert forall|q: int| 0 <= q <= m implies has_key(
                    kview(uk@),
                    (#[trigger] records@[q]).emoji@,
                    q,
                ) by {
                    lemma_key_push_preserves(before, uk@, records@[q].emoji@, q);
                }
                assert forall|k: int, w: int|
                    0 <= k < m && 0 <= w < flat@[k].1.variations@.len() implies has_key(
                    kview(uk@),
                    (#[trigger] flat@[k].1.variations@[w])@,
                    k,
                ) by {
                    lemma_key_push_preserves(before, uk@, flat@[k].1.variations@[w]@, k);
                }
                assert forall|w: int| 0 <= w < v + 1 implies has_key(
                    kview(uk@),
                    (#[trigger] flat@[m as int].1.variations@[w])@,
                    m as int,
                ) by {
                    if w < v {
                        lemma_key_push_preserves(
                            before,
                            uk@,
                            flat@[m as int].1.variations@[w]@,
                            m as int,
                        );
                    }
                }
            }
            v = v + 1;
        }
        proof {
            assert forall|j: int| 0 <= j < uk@.len() implies exists|q: int, w: int|
                valid_unicode_tag(flat@, q, w) && q < m + 1 && uk@[j].1 == q && (
            #[trigger] uk@[j]).0@ == unicode_key_of(flat@, q, w) by {
                let (q, w) = choose|q: int, w: int|
                    valid_unicode_tag(flat@, q, w) && (q < m || (q == m && w < nv)) && uk@[j].1
                        == q && (#[trigger] uk@[j]).0@ == unicode_key_of(flat@, q, w);
                assert(valid_unicode_tag(flat@, q, w) && q < m + 1 && uk@[j].1 == q && uk@[j].0@
                    == unicode_key_of(flat@, q, w));
            }
        }
        m = m + 1;
    }
    proof {
        assert forall|j: int| 0 <= j < kview(uk@).len() implies #[trigger] key_is_unicode_source(
            kview(uk@),
            flat@,
            j,
        ) by {
            let (q, w) = choose|q: int, w: int|
                valid_unicode_tag(flat@, q, w) && q < n && uk@[j].1 == q && (#[trigger] uk@[j]).0@
                    == unicode_key_of(flat@, q, w);
            assert(kview(uk@)[j] == (uk@[j].0@, uk@[j].1 as int));
            if w < 0 {
                assert(kview(uk@)[j].0 == flat@[kview(uk@)[j].1].1.emoji@);
            } else {
                assert(0 <= w < flat@[kview(uk@)[j].1].1.variations@.len() && kview(uk@)[j].0 == (
                flat@[kview(uk@)[j].1].1.variations@[w])@);
            }
        }
    }
    Ok(uk)
}

/// Register every record's aliases in the shortcode key map, with a
/// fatal error on any collision.
fn register_shortcodes(records: &Vec<Emoji>) -> (r: Result<Vec<(String, usize)>, BuildError>)
    ensures
        r matches Ok(sk) ==> {
            &&& keys_in_range(kview(sk@), records@.len() as int)
            &&& keys_distinct(kview(sk@))
            &&& forall|m: int, a: int|
                0 <= m < records@.len() && 0 <= a < records@[m].aliases@.len() ==> has_key(
                    kview(sk@),
                    (#[trigger] records@[m].aliases@[a])@,
                    m,
                )
            &&& forall|j: int|
                0 <= j < kview(sk@).len() ==> #[trigger] key_is_alias(kview(sk@), records@, j)
        },
        r matches Err(e) ==> e == BuildError::DuplicateShortcode && shortcodes_collide(records@),
{
    let n = records.len();
    let mut sk: Vec<(String, usize)> = Vec::new();
    let mut m: usize = 0;
    while m < n
        invariant
            n == records@.len(),
            m <= n,
            forall|j: int| 0 <= j < sk@.len() ==> (#[trigger] sk@[j]).1 < n,
            forall|j1: int, j2: int|
                0 <= j1 < j2 < sk@.len() ==> (#[trigger] sk@[j1]).0@ != (#[trigger] sk@[j2]).0@,
            forall|q: int, a: int|
                0 <= q < m && 0 <= a < records@[q].aliases@.len() ==> has_key(
                    kview(sk@),
                    (#[trigger] records@[q].aliases@[a])@,
                    q,
                ),
            forall|j: int| 0 <= j < sk@.len() ==> #[trigger] alias_sourced(
                records@,
                sk@,
                j,
                m as int,
                0,
            ),
        decreases n - m,
    {
        let na = records[m].aliases.len();
        let mut a: usize = 0;
        while a < na
            invariant
                n == records@.len(),
                m < n,
                na == records@[m as int].aliases@.len(),
                a <= na,
                forall|j: int| 0 <= j < sk@.len() ==> (#[trigger] sk@[j]).1 < n,
                forall|j1: int, j2: int|
                    0 <= j1 < j2 < sk@.len() ==> (#[trigger] sk@[j1]).0@ != (
                    #[trigger] sk@[j2]).0@,
                forall|q: int, w: int|
                    0 <= q < m && 0 <= w < records@[q].aliases@.len() ==> has_key(
                        kview(sk@),
                        (#[trigger] records@[q].aliases@[w])@,
                        q,
                    ),
                forall|w: int|
                    0 <= w < a ==> has_key(
                        kview(sk@),
                        (#[trigger] records@[m as int].aliases@[w])@,
                        m as int,
                    ),
                forall|j: int| 0 <= j < sk@.len() ==> #[trigger] alias_sourced(
                    records@,
                    sk@,
                    j,
                    m as int,
                    a as int,
                ),
            decreases na - a,
        {
            proof {
                assert forall|j: int| 0 <= j < sk@.len() implies (#[trigger] sk@[j]).0@
                    != records@[m as int].aliases@[a as int]@ || shortcodes_collide(records@) by {
                    assert(alias_sourced(records@, sk@, j, m as int, a as int));
                    if sk@[j].0@ == records@[m as int].aliases@[a as int]@ {
                        let (q, w) = choose|q: int, w: int|
                            valid_alias_tag(records@, q, w) && (q < m || (q == m && w < a))
                                && sk@[j].1 == q && sk@[j].0@ == #[trigger] alias_key_of(
                                records@,
                                q,
                                w,
                            );
                        assert(valid_alias_tag(records@, m as int, a as int));
                        assert(alias_key_of(records@, m as int, a as int)
                            == records@[m as int].aliases@[a as int]@);
                        assert(alias_key_of(records@, q, w) == alias_key_of(
                            records@,
                            m as int,
                            a as int,
                        ));
                        assert(shortcodes_collide(records@));
                    }
                }
            }
            if key_present(&sk, &records[m].aliases[a]) {
                proof {
                    let j = choose|j: int|
                        0 <= j < sk@.len() && (#[trigger] sk@[j]).0@ == records@[m as int].aliases@[a as int]@;
                    assert(shortcodes_collide(records@));
                }
                return Err(BuildError::DuplicateShortcode);
            }
            let ghost before = sk@;
            sk.push((records[m].aliases[a].clone(), m));
            proof {
                assert forall|j: int| 0 <= j < sk@.len() implies #[trigger] alias_sourced(
                    records@,
                    sk@,
                    j,
                    m as int,
                    a as int + 1,
                ) by {
                    if j < sk@.len() - 1 {
                        assert(sk@[j] == before[j]);
                        assert(alias_sourced(records@, before, j, m as int, a as int));
                        let (q, w) = choose|q: int, w: int|
                            valid_alias_tag(records@, q, w) && (q < m || (q == m && w < a))
                                && before[j].1 == q && before[j].0@ == #[trigger] alias_key_of(
                                records@,
                                q,
                                w,
                            );
                        assert(valid_alias_tag(records@, q, w) && (q < m || (q == m && w < a + 1))
                            && sk@[j].1 == q && sk@[j].0@ == alias_key_of(records@, q, w));
                    } else {
                        assert(valid_alias_tag(records@, m as int, a as int) && sk@[j].1 == m as int
                            && sk@[j].0@ == alias_key_of(records@, m as int, a as int));
                    }
                }
                assert(sk@[sk@.len() - 1] == (records@[m as int].aliases@[a as int], m));
                assert(kview(sk@)[sk@.len() - 1] == (
                    records@[m as int].aliases@[a as int]@,
                    m as int,
                ));
                assert(has_key(kview(sk@), records@[m as int].aliases@[a as int]@, m as int));
                assert forall|j1: int, j2: int|
                    0 <= j1 < j2 < sk@.len() implies (#[trigger] sk@[j1]).0@ != (
                #[trigger] sk@[j2]).0@ by {
                    if j2 < sk@.len() - 1 {
                        assert(sk@[j1] == before[j1] && sk@[j2] == before[j2]);
                    } else {
                        assert(sk@[j1] == before[j1]);
                    }
                }
                assert forall|q: int, w: int|
                    0 <= q < m && 0 <= w < records@[q].aliases@.len() implies has_key(
                    kview(sk@),
                    (#[trigger] records@[q].aliases@[w])@,
                    q,
                ) by {
                    lemma_key_push_preserves(before, sk@, records@[q].aliases@[w]@, q);
                }
                assert forall|w: int| 0 <= w < a + 1 implies has_key(
                    kview(sk@),
                    (#[trigger] records@[m as int].aliases@[w])@,
                    m as int,
                ) by {
                    if w < a {
                        lemma_key_push_preserves(
                            before,
                            sk@,
                            records@[m as int].aliases@[w]@,
                            m as int,
                        );
                    }
                }
            }
            a = a + 1;
        }
        proof {
            assert forall|j: int| 0 <= j < sk@.len() implies #[trigger] alias_sourced(
                records@,
                sk@,
                j,
                m as int + 1,
                0,
            ) by {
                assert(alias_sourced(records@, sk@, j, m as int, na as int));
                let (q, w) = choose|q: int, w: int|
                    valid_alias_tag(records@, q, w) && (q < m || (q == m && w < na)) && sk@[j].1
                        == q && sk@[j].0@ == #[trigger] alias_key_of(records@, q, w);
                assert(valid_alias_tag(records@, q, w) && (q < m + 1 || (q == m + 1 && w < 0))
                    && sk@[j].1 == q && sk@[j].0@ == alias_key_of(records@, q, w));
            }
        }
        m = m + 1;
    }
    proof {
        assert forall|j: int| 0 <= j < kview(sk@).len() implies #[trigger] key_is_alias(
            kview(sk@),
            records@,
            j,
        ) by {
            assert(alias_sourced(records@, sk@, j, n as int, 0));
            let (q, w) = choose|q: int, w: int|
                valid_alias_tag(records@, q, w) && (q < n || (q == n && w < 0)) && sk@[j].1 == q
                    && sk@[j].0@ == #[trigger] alias_key_of(records@, q, w);
            assert(kview(sk@)[j] == (sk@[j].0@, sk@[j].1 as int));
            assert(0 <= w < records@[kview(sk@)[j].1].aliases@.len() && kview(sk@)[j].0 == (
            records@[kview(sk@)[j].1].aliases@[w])@);
        }
    }
    Ok(sk)
}

/// Build the frozen table from flattened entries and the gemoji alias
/// list: lay the records out, link the skin-tone families, attach
/// aliases, and register every sequence, variation and alias — or
/// reject the input for violating a table invariant.
pub fn build_table(flat: &Vec<(Group, crate::unicode::Emoji)>, gemoji: &Vec<github::Emoji>) -> (r:
    Result<EmojiTable, BuildError>)
    ensures
        r matches Ok(t) ==> {
            &&& t.wf()
            &&& t.spec_records().len() == flat@.len()
            &&& forall|k: int|
                0 <= k < flat@.len() ==> built_record_matches(
                    #[trigger] t.spec_records()[k],
                    flat@[k],
                    gemoji@,
                )
            &&& forall|k: int, v: int|
                0 <= k < flat@.len() && 0 <= v < flat@[k].1.variations@.len() ==> has_key(
                    t.spec_unicode_keys(),
                    (#[trigger] flat@[k].1.variations@[v])@,
                    k,
                )
            &&& forall|j: int|
                0 <= j < t.spec_unicode_keys().len() ==> #[trigger] key_is_unicode_source(
                    t.spec_unicode_keys(),
                    flat@,
                    j,
                )
        },
        r is Ok ==> layout_ok(flat@) && groups_ok(flat@),
        !(layout_ok(flat@) && groups_ok(flat@)) ==> r is Err,
        r matches Err(e) ==> (e == BuildError::BadFamily ==> !layout_ok(flat@)) && (e
            == BuildError::GroupDisorder ==> !groups_ok(flat@)) && (e
            == BuildError::DuplicateUnicodeKey ==> unicode_keys_collide(flat@)) && (e
            == BuildError::DuplicateShortcode ==> gemoji_aliases_collide(flat@, gemoji@)),
{
    let records = match lay_out_records(flat, gemoji) {
        Ok(r) => r,
        Err(e) => {
            return Err(e);
        },
    };
    let uk = match register_unicode_keys(&records, flat) {
        Ok(r) => r,
        Err(e) => {
            return Err(e);
        },
    };
    let sk = match register_shortcodes(&records) {
        Ok(r) => r,
        Err(e) => {
            proof {
                let (m1, a1, m2, a2) = choose|m1: int, a1: int, m2: int, a2: int|
                    valid_alias_tag(records@, m1, a1) && valid_alias_tag(records@, m2, a2) && !(m1
                        == m2 && a1 == a2) && #[trigger] alias_key_of(records@, m1, a1)
                        == #[trigger] alias_key_of(records@, m2, a2);
                assert(built_record_matches(records@[m1], flat@[m1], gemoji@));
                assert(built_record_matches(records@[m2], flat@[m2], gemoji@));
                assert(valid_source_alias(flat@, gemoji@, m1, a1));
                assert(valid_source_alias(flat@, gemoji@, m2, a2));
                assert(source_alias_of(flat@, gemoji@, m1, a1) == alias_key_of(records@, m1, a1));
                assert(source_alias_of(flat@, gemoji@, m2, a2) == alias_key_of(records@, m2, a2));
                assert(gemoji_aliases_collide(flat@, gemoji@));
            }
            return Err(e);
        },
    };
    let ghost recs = records@;
    let ghost ukg = uk@;
    let ghost skg = sk@;
    let t = EmojiTable::assemble(records, uk, sk);
    proof {
        assert(t.spec_records() == recs);
        assert(t.spec_unicode_keys() =~= kview(ukg));
        assert(t.spec_shortcode_keys() =~= kview(skg));
        assert forall|j: int| 0 <= j < t.spec_shortcode_keys().len() implies #[trigger] key_is_alias(
            t.spec_shortcode_keys(),
            t.spec_records(),
            j,
        ) by {
            assert(key_is_alias(kview(skg), recs, j));
        }
        assert(t.wf());
        assert forall|j: int|
            0 <= j < t.spec_unicode_keys().len() implies #[trigger] key_is_unicode_source(
            t.spec_unicode_keys(),
            flat@,
            j,
        ) by {
            assert(key_is_unicode_source(kview(ukg), flat@, j));
        }
    }
    Ok(t)
}

/// Build the frozen table straight from parsed Unicode data and the
/// gemoji alias list.
pub fn table_from_parsed(parsed: &Vec<GroupData>, gemoji: &Vec<github::Emoji>) -> (r: Result<
    EmojiTable,
    BuildError,
>)
    ensures
        r matches Ok(t) ==> {
            &&& t.wf()
            &&& t.spec_records().len() == groups_flat(parsed@).len()
            &&& forall|k: int|
                0 <= k < groups_flat(parsed@).len() ==> built_record_matches(
                    #[trigger] t.spec_records()[k],
                    groups_flat(parsed@)[k],
                    gemoji@,
                )
        },
        r is Ok ==> layout_ok(groups_flat(parsed@)) && groups_ok(groups_flat(parsed@)),
        r matches Err(e) ==> (e == BuildError::BadFamily ==> !layout_ok(groups_flat(parsed@))) && (
        e == BuildError::GroupDisorder ==> !groups_ok(groups_flat(parsed@))) && (e
            == BuildError::DuplicateUnicodeKey ==> unicode_keys_collide(groups_flat(parsed@))) && (
        e == BuildError::DuplicateShortcode ==> gemoji_aliases_collide(
            groups_flat(parsed@),
            gemoji@,
        )),
{
    let flat = flatten_parsed(parsed);
    let r = build_table(&flat, gemoji);
    proof {
        lemma_entries_conditions(flat@, groups_flat(parsed@));
        lemma_entries_collisions(flat@, groups_flat(parsed@), gemoji@);
        match &r {
            Ok(t) => {
                assert forall|k: int| 0 <= k < groups_flat(parsed@).len() implies
                    built_record_matches(
                    #[trigger] t.spec_records()[k],
                    groups_flat(parsed@)[k],
                    gemoji@,
                ) by {
                    assert(built_record_matches(t.spec_records()[k], flat@[k], gemoji@));
                    assert(same_entry(flat@[k], groups_flat(parsed@)[k]));
                }
            },
            Err(e) => {},
        }
    }
    r
}

} // verus!
