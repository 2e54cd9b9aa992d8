//! Fuzzy search over emoji names and shortcode aliases.
//!
//! Every record's name and aliases are scored against the query with
//! the Jaro similarity, a candidate that starts with the query gets a
//! doubled score, records whose best score stays at or under a fixed
//! threshold are dropped, and the survivors are ranked best first with
//! ties broken by table position.
//!
//! Scores are carried as the IEEE-754 bit patterns of the nonnegative
//! similarity doubles: for such doubles the bit patterns order exactly
//! as the doubles themselves, and adding one to the exponent field —
//! [`PREFIX_BOOST`] — doubles the value. All comparisons and the
//! ranking are therefore plain integer arithmetic.

use vstd::prelude::*;

use crate::chartext::chars_of;
use crate::chartext::is_prefix_of;
use crate::chartext::starts_with_at;
use crate::table::Emoji;
use crate::table::EmojiTable;

verus! {

/// The bit pattern of the double 1.0, the largest similarity.
pub const SCORE_ONE: u64 = 0x3FF0000000000000;

/// The bit pattern of the double 0.75: a record survives only with a
/// boosted score strictly above this threshold.
pub const SCORE_THRESHOLD: u64 = 0x3FE8000000000000;

/// Adding this to the bit pattern of a normal positive double raises
/// its exponent by one, doubling the value: the boost a candidate
/// earns by starting with the query.
pub const PREFIX_BOOST: u64 = 0x0010000000000000;

pub uninterp spec fn jaro_bits(a: Seq<char>, b: Seq<char>) -> u64;

/// Relies on `strsim::jaro`: the Jaro similarity of two strings
/// depends on their characters alone, lies in `[0.0, 1.0]`, and equals
/// exactly 1.0 when and only when the strings are equal (every
/// position matched in order with no transposition forces equality,
/// and `(1.0 + 1.0 + 1.0) / 3.0` is exact). The result is returned as
/// the IEEE-754 bit pattern of that nonnegative double; the pattern of
/// a nonnegative double at most 1.0 is at most the pattern of 1.0.
#[verifier::external_body]
fn jaro_similarity_bits(a: &str, b: &str) -> (r: u64)
    ensures
        r == jaro_bits(a@, b@),
        r <= SCORE_ONE,
        a@ == b@ ==> r == SCORE_ONE,
        r == SCORE_ONE ==> a@ == b@,
{
    strsim::jaro(a, b).to_bits()
}

/// The score of one candidate string against the query: the Jaro
/// similarity pattern — exactly the pattern of 1.0 for an equal pair,
/// and strictly below it otherwise, as the similarity itself reaches
/// 1.0 only on equal strings — plus the prefix boost when the
/// candidate starts with the query.
pub open spec fn sim_score(cand: Seq<char>, q: Seq<char>) -> int {
    let base: int = if cand == q {
        SCORE_ONE as int
    } else if jaro_bits(cand, q) < SCORE_ONE {
        jaro_bits(cand, q) as int
    } else {
        SCORE_ONE - 1
    };
    base + if is_prefix_of(q, cand) {
        PREFIX_BOOST as int
    } else {
        0
    }
}

/// The strings a record is scored by: its name, then its aliases.
pub open spec fn candidates(e: Emoji) -> Seq<Seq<char>> {
    seq![e.name@] + e.aliases@.map_values(|s: String| s@)
}

/// The largest score among a sequence of candidate strings.
pub open spec fn max_score(cands: Seq<Seq<char>>, q: Seq<char>) -> int
    decreases cands.len(),
{
    if cands.len() == 0 {
        0
    } else {
        let rest = max_score(cands.drop_last(), q);
        let h = sim_score(cands.last(), q);
        if h > rest {
            h
        } else {
            rest
        }
    }
}

/// A record's score against the query: the best over its candidates.
pub open spec fn best_score(e: Emoji, q: Seq<char>) -> int {
    max_score(candidates(e), q)
}

/// `a` ranks strictly before `b`: higher score, or the same score and
/// an earlier table position.
pub open spec fn ranks_before(a: (int, int), b: (int, int)) -> bool {
    a.0 > b.0 || (a.0 == b.0 && a.1 < b.1)
}

/// `x` inserted into a ranked sequence, after every entry that ranks
/// before it.
pub open spec fn insert_ranked(s: Seq<(int, int)>, x: (int, int)) -> Seq<(int, int)>
    decreases s.len(),
{
    if s.len() == 0 {
        seq![x]
    } else if ranks_before(s[0], x) {
        seq![s[0]] + insert_ranked(s.drop_first(), x)
    } else {
        seq![x] + s
    }
}

/// The ranked (score, position) pairs of the surviving records among
/// the first `n` of the table.
pub open spec fn ranked_matches(t: EmojiTable, q: Seq<char>, n: int) -> Seq<(int, int)>
    decreases n,
{
    if n <= 0 {
        Seq::empty()
    } else {
        let prev = ranked_matches(t, q, n - 1);
        let sc = best_score(t.spec_records()[n - 1], q);
        if sc > SCORE_THRESHOLD {
            insert_ranked(prev, (sc, n - 1))
        } else {
            prev
        }
    }
}

/// What a search returns: the surviving records, best first, ties in
/// table order.
pub open spec fn spec_search(t: EmojiTable, q: Seq<char>) -> Seq<Emoji> {
    ranked_matches(t, q, t.spec_records().len() as int).map_values(
        |p: (int, int)| t.spec_records()[p.1],
    )
}

/// The view of an executable (score, position) pair.
pub open spec fn pair_view() -> spec_fn((u64, usize)) -> (int, int) {
    |p: (u64, usize)| (p.0 as int, p.1 as int)
}

/// One candidate's score against the query.
fn similarity(cand: &str, query: &str, qchars: &Vec<char>) -> (r: u64)
    requires
        qchars@ == query@,
    ensures
        r as int == sim_score(cand@, query@),
{
    let jb = jaro_similarity_bits(cand, query);
    let cchars = chars_of(cand);
    let boosted = starts_with_at(&cchars, 0, qchars);
    proof {
        assert(cchars@.subrange(0, cchars@.len() as int) =~= cchars@);
    }
    if boosted {
        jb + PREFIX_BOOST
    } else {
        jb
    }
}

/// A record's score, when it beats the threshold.
fn emoji_score(e: &Emoji, query: &str, qchars: &Vec<char>) -> (r: Option<u64>)
    requires
        qchars@ == query@,
    ensures
        match r {
            Some(s) => s as int == best_score(*e, query@) && s > SCORE_THRESHOLD,
            None => best_score(*e, query@) <= SCORE_THRESHOLD,
        },
{
    let ghost cands = candidates(*e);
    let mut best = similarity(e.name.as_str(), query, qchars);
    proof {
        assert(cands.subrange(0, 1).drop_last() =~= Seq::<Seq<char>>::empty());
        assert(cands.subrange(0, 1).last() == e.name@);
        assert(max_score(Seq::<Seq<char>>::empty(), query@) == 0);
        assert(best as int == max_score(cands.subrange(0, 1), query@));
    }
    let n = e.aliases.len();
    let mut j: usize = 0;
    while j < n
        invariant
            qchars@ == query@,
            cands == candidates(*e),
            n == e.aliases@.len(),
            cands.len() == n + 1,
            j <= n,
            best as int == max_score(cands.subrange(0, j + 1), query@),
        decreases n - j,
    {
        let m = similarity(e.aliases[j].as_str(), query, qchars);
        proof {
            assert(cands.subrange(0, j + 2).drop_last() =~= cands.subrange(0, j + 1));
            assert(cands[j + 1] == e.aliases@[j as int]@);
            assert(cands.subrange(0, j + 2).last() == e.aliases@[j as int]@);
        }
        if m > best {
            best = m;
        }
        j = j + 1;
    }
    proof {
        assert(cands.subrange(0, n + 1) =~= cands);
    }
    if best > SCORE_THRESHOLD {
        Some(best)
    } else {
        None
    }
}

/// The position where a pair scoring `sc` at table position `idx`
/// belongs: after every entry ranking before it.
fn insert_position(scored: &Vec<(u64, usize)>, sc: u64, idx: usize) -> (j: usize)
    ensures
        j <= scored@.len(),
        forall|k: int|
            0 <= k < j ==> ranks_before(pair_view()(#[trigger] scored@[k]), (sc as int, idx as int)),
        j < scored@.len() ==> !ranks_before(pair_view()(scored@[j as int]), (sc as int, idx as int)),
{
    let m = scored.len();
    let mut j: usize = 0;
    while j < m
        invariant
            m == scored@.len(),
            j <= m,
            forall|k: int|
                0 <= k < j ==> ranks_before(
                    pair_view()(#[trigger] scored@[k]),
                    (sc as int, idx as int),
                ),
        decreases m - j,
    {
        let before = scored[j].0 > sc || (scored[j].0 == sc && scored[j].1 < idx);
        if !before {
            return j;
        }
        j = j + 1;
    }
    j
}

/// Inserting at the first position not ranking before `x` computes
/// `insert_ranked`.
proof fn lemma_insert_ranked_at(s: Seq<(int, int)>, x: (int, int), j: int)
    requires
        0 <= j <= s.len(),
        forall|k: int| 0 <= k < j ==> ranks_before(#[trigger] s[k], x),
        j < s.len() ==> !ranks_before(s[j], x),
    ensures
        insert_ranked(s, x) == s.insert(j, x),
    decreases s.len(),
{
    if s.len() == 0 {
        assert(insert_ranked(s, x) =~= s.insert(0, x));
    } else if j == 0 {
        assert(insert_ranked(s, x) =~= s.insert(0, x));
    } else {
        assert(ranks_before(s[0], x));
        assert(forall|k: int|
            0 <= k < j - 1 ==> ranks_before(#[trigger] s.drop_first()[k], x)) by {
            assert forall|k: int| 0 <= k < j - 1 implies ranks_before(
                #[trigger] s.drop_first()[k],
                x,
            ) by {
                assert(s.drop_first()[k] == s[k + 1]);
            }
        }
        assert(j - 1 < s.drop_first().len() ==> !ranks_before(s.drop_first()[j - 1], x));
        lemma_insert_ranked_at(s.drop_first(), x, j - 1);
        assert(insert_ranked(s, x) =~= s.insert(j, x));
    }
}

/// The record's name or one of its aliases is the query itself.
pub open spec fn exact_match(e: Emoji, q: Seq<char>) -> bool {
    e.name@ == q || exists|a: int| 0 <= a < e.aliases@.len() && (#[trigger] e.aliases@[a])@ == q
}

/// No candidate scores above the equal-pair score.
proof fn lemma_max_score_le(cands: Seq<Seq<char>>, q: Seq<char>)
    ensures
        max_score(cands, q) <= SCORE_ONE + PREFIX_BOOST,
    decreases cands.len(),
{
    if cands.len() > 0 {
        lemma_max_score_le(cands.drop_last(), q);
    }
}

/// A positive best score is attained by some candidate.
proof fn lemma_max_score_attained(cands: Seq<Seq<char>>, q: Seq<char>)
    ensures
        max_score(cands, q) == 0 || exists|j: int|
            0 <= j < cands.len() && #[trigger] sim_score(cands[j], q) == max_score(cands, q),
    decreases cands.len(),
{
    if cands.len() > 0 {
        lemma_max_score_attained(cands.drop_last(), q);
        let rest = max_score(cands.drop_last(), q);
        let h = sim_score(cands.last(), q);
        if h > rest {
            assert(sim_score(cands[cands.len() - 1], q) == max_score(cands, q));
        } else if rest > 0 {
            let j = choose|j: int|
                0 <= j < cands.drop_last().len() && #[trigger] sim_score(cands.drop_last()[j], q)
                    == rest;
            assert(cands.drop_last()[j] == cands[j]);
            assert(sim_score(cands[j], q) == max_score(cands, q));
        }
    }
}

/// Only an exact match scores the equal-pair score.
proof fn lemma_top_score_is_exact(e: Emoji, q: Seq<char>)
    requires
        best_score(e, q) == SCORE_ONE + PREFIX_BOOST,
    ensures
        exact_match(e, q),
{
    let cands = candidates(e);
    lemma_max_score_attained(cands, q);
    assert(SCORE_ONE + PREFIX_BOOST > 0);
    let j = choose|j: int|
        0 <= j < cands.len() && #[trigger] sim_score(cands[j], q) == best_score(e, q);
    // a candidate reaching the top score must be the query: unequal
    // strings score strictly below the equal-pair pattern
    assert(cands[j] == q);
    if j == 0 {
        assert(e.name@ == q);
    } else {
        assert(cands[j] == e.aliases@.map_values(|s: String| s@)[j - 1]);
        assert((e.aliases@[j - 1])@ == q);
    }
}

/// The best score is at least any one candidate's score.
proof fn lemma_max_score_ge(cands: Seq<Seq<char>>, q: Seq<char>, j: int)
    requires
        0 <= j < cands.len(),
    ensures
        max_score(cands, q) >= sim_score(cands[j], q),
    decreases cands.len(),
{
    if j < cands.len() - 1 {
        assert(cands.drop_last()[j] == cands[j]);
        lemma_max_score_ge(cands.drop_last(), q, j);
    }
}

/// Entries are ranked: every earlier entry ranks strictly before every
/// later one.
pub open spec fn sorted_ranked(s: Seq<(int, int)>) -> bool {
    forall|i: int, j: int| 0 <= i < j < s.len() ==> ranks_before(#[trigger] s[i], #[trigger] s[j])
}

/// The position at which `insert_ranked` places `x`: past the entries
/// ranking before it.
spec fn rank_position(s: Seq<(int, int)>, x: (int, int)) -> int
    decreases s.len(),
{
    if s.len() == 0 {
        0
    } else if ranks_before(s[0], x) {
        1 + rank_position(s.drop_first(), x)
    } else {
        0
    }
}

/// `insert_ranked` is insertion at `rank_position`.
proof fn lemma_insert_ranked_position(s: Seq<(int, int)>, x: (int, int))
    ensures
        0 <= rank_position(s, x) <= s.len(),
        forall|k: int| 0 <= k < rank_position(s, x) ==> ranks_before(#[trigger] s[k], x),
        rank_position(s, x) < s.len() ==> !ranks_before(s[rank_position(s, x)], x),
        insert_ranked(s, x) == s.insert(rank_position(s, x), x),
    decreases s.len(),
{
    if s.len() == 0 {
        assert(insert_ranked(s, x) =~= s.insert(0, x));
    } else if ranks_before(s[0], x) {
        lemma_insert_ranked_position(s.drop_first(), x);
        let j = rank_position(s.drop_first(), x);
        assert forall|k: int| 0 <= k < 1 + j implies ranks_before(#[trigger] s[k], x) by {
            if k > 0 {
                assert(s.drop_first()[k - 1] == s[k]);
            }
        }
        assert(1 + j < s.len() ==> !ranks_before(s[1 + j], x)) by {
            if 1 + j < s.len() {
                assert(s.drop_first()[j] == s[1 + j]);
            }
        }
        assert(insert_ranked(s, x) =~= s.insert(1 + j, x));
    } else {
        assert(insert_ranked(s, x) =~= s.insert(0, x));
    }
}

/// Inserting an entry with a fresh table position keeps the sequence
/// ranked, keeps every entry, and adds the new one.
proof fn lemma_insert_ranked_props(s: Seq<(int, int)>, x: (int, int))
    requires
        sorted_ranked(s),
        forall|k: int| 0 <= k < s.len() ==> (#[trigger] s[k]).1 != x.1,
    ensures
        insert_ranked(s, x).len() == s.len() + 1,
        sorted_ranked(insert_ranked(s, x)),
        insert_ranked(s, x).contains(x),
        forall|y: (int, int)| s.contains(y) ==> #[trigger] insert_ranked(s, x).contains(y),
        forall|y: (int, int)|
            #[trigger] insert_ranked(s, x).contains(y) ==> y == x || s.contains(y),
{
    lemma_insert_ranked_position(s, x);
    let j = rank_position(s, x);
    let out = s.insert(j, x);
    assert(out.len() == s.len() + 1);
    // every original entry keeps a slot, shifted past the insertion
    assert forall|y: (int, int)| s.contains(y) implies #[trigger] out.contains(y) by {
        let k = choose|k: int| 0 <= k < s.len() && s[k] == y;
        if k < j {
            assert(out[k] == y);
        } else {
            assert(out[k + 1] == y);
        }
    }
    assert forall|y: (int, int)| #[trigger] out.contains(y) implies y == x || s.contains(y) by {
        let k = choose|k: int| 0 <= k < out.len() && out[k] == y;
        if k < j {
            assert(s[k] == y);
        } else if k == j {
        } else {
            assert(s[k - 1] == y);
        }
    }
    assert(out[j] == x);
    // ranked: entries before the slot rank before x, entries after do
    // not rank before it, and positions differ, so x ranks before them
    assert forall|i1: int, i2: int| 0 <= i1 < i2 < out.len() implies ranks_before(
        #[trigger] out[i1],
        #[trigger] out[i2],
    ) by {
        if i1 < j && i2 < j {
            assert(out[i1] == s[i1] && out[i2] == s[i2]);
        } else if i1 < j && i2 == j {
            assert(out[i1] == s[i1]);
        } else if i1 < j && i2 > j {
            assert(out[i1] == s[i1] && out[i2] == s[i2 - 1]);
        } else if i1 == j && i2 > j {
            assert(out[i2] == s[i2 - 1]);
            if i2 - 1 == j {
                assert(!ranks_before(s[j], x));
                assert(s[j].1 != x.1);
            } else {
                assert(!ranks_before(s[j], x));
                assert(ranks_before(s[j], s[i2 - 1]));
                assert(s[i2 - 1].1 != x.1);
            }
        } else {
            assert(out[i1] == s[i1 - 1] && out[i2] == s[i2 - 1]);
        }
    }
}

/// What one ranked pair says: a position among the first `n`, scored
/// by its own record, above the threshold.
pub open spec fn ranked_entry_ok(t: EmojiTable, q: Seq<char>, n: int, p: (int, int)) -> bool {
    &&& 0 <= p.1 < n
    &&& p.0 == best_score(t.spec_records()[p.1], q)
    &&& p.0 > SCORE_THRESHOLD
}

/// What the ranked pairs of the first `n` records satisfy: positions
/// in range, scores the records' own and above the threshold, ranked
/// order, and every surviving record present.
proof fn lemma_ranked_props(t: EmojiTable, q: Seq<char>, n: int)
    requires
        0 <= n <= t.spec_records().len(),
    ensures
        forall|k: int|
            0 <= k < ranked_matches(t, q, n).len() ==> ranked_entry_ok(
                t,
                q,
                n,
                #[trigger] ranked_matches(t, q, n)[k],
            ),
        sorted_ranked(ranked_matches(t, q, n)),
        forall|i: int|
            0 <= i < n && best_score(t.spec_records()[i], q) > SCORE_THRESHOLD
                ==> #[trigger] ranked_matches(t, q, n).contains(
                (best_score(t.spec_records()[i], q), i),
            ),
    decreases n,
{
    if n > 0 {
        lemma_ranked_props(t, q, n - 1);
        let prev = ranked_matches(t, q, n - 1);
        let sc = best_score(t.spec_records()[n - 1], q);
        if sc > SCORE_THRESHOLD {
            let x = (sc, n - 1);
            assert(forall|k: int| 0 <= k < prev.len() ==> (#[trigger] prev[k]).1 != x.1);
            lemma_insert_ranked_props(prev, x);
            let out = ranked_matches(t, q, n);
            assert forall|k: int| 0 <= k < out.len() implies ranked_entry_ok(
                t,
                q,
                n,
                #[trigger] out[k],
            ) by {
                assert(out.contains(out[k]));
                if out[k] != x {
                    assert(prev.contains(out[k]));
                    let k0 = choose|k0: int| 0 <= k0 < prev.len() && prev[k0] == out[k];
                    assert(ranked_entry_ok(t, q, n - 1, prev[k0]));
                }
            }
            assert forall|i: int|
                0 <= i < n && best_score(t.spec_records()[i], q)
                    > SCORE_THRESHOLD implies #[trigger] out.contains(
                (best_score(t.spec_records()[i], q), i),
            ) by {
                if i < n - 1 {
                    assert(prev.contains((best_score(t.spec_records()[i], q), i)));
                }
            }
        }
    }
}

/// Law: a query equal to a record's name or to one of its aliases
/// gives the record the largest possible score, above the threshold;
/// the record therefore appears in the search result, and every record
/// ranked before it carries that same top score and is itself an exact
/// match — no record without the query among its name and aliases
/// precedes it.
pub proof fn lemma_exact_match_ranks_first(t: EmojiTable, q: Seq<char>, i: int)
    requires
        0 <= i < t.spec_records().len(),
        q == t.spec_records()[i].name@ || exists|a: int|
            0 <= a < t.spec_records()[i].aliases@.len() && q == (#[trigger] t.spec_records()[i].aliases@[a])@,
    ensures
        best_score(t.spec_records()[i], q) == SCORE_ONE + PREFIX_BOOST,
        exists|pos: int|
            {
                &&& 0 <= pos < spec_search(t, q).len()
                &&& #[trigger] spec_search(t, q)[pos] == t.spec_records()[i]
                &&& forall|p: int|
                    0 <= p < pos ==> ranked_matches(t, q, t.spec_records().len() as int)[p].0
                        == SCORE_ONE + PREFIX_BOOST
                &&& forall|p: int| 0 <= p < pos ==> exact_match(#[trigger] spec_search(t, q)[p], q)
            },
{
    let e = t.spec_records()[i];
    let cands = candidates(e);
    let n = t.spec_records().len() as int;
    // the equal candidate scores exactly the top score
    assert(is_prefix_of(q, q)) by {
        assert(q.subrange(0, q.len() as int) =~= q);
    }
    assert(sim_score(q, q) == SCORE_ONE + PREFIX_BOOST);
    if q == e.name@ {
        assert(cands[0] == q);
        lemma_max_score_ge(cands, q, 0);
    } else {
        let a = choose|a: int| 0 <= a < e.aliases@.len() && q == (#[trigger] e.aliases@[a])@;
        assert(cands[1 + a] == q);
        lemma_max_score_ge(cands, q, 1 + a);
    }
    lemma_max_score_le(cands, q);
    assert(best_score(e, q) == SCORE_ONE + PREFIX_BOOST);
    assert(best_score(e, q) > SCORE_THRESHOLD);
    lemma_ranked_props(t, q, n);
    let ranked = ranked_matches(t, q, n);
    assert(ranked.contains((best_score(e, q), i)));
    let pos = choose|pos: int| 0 <= pos < ranked.len() && ranked[pos] == (best_score(e, q), i);
    assert(spec_search(t, q)[pos] == e);
    assert forall|p: int| 0 <= p < pos implies ranked[p].0 == SCORE_ONE + PREFIX_BOOST by {
        assert(ranks_before(ranked[p], ranked[pos]));
        let rp = ranked[p];
        assert(rp.0 == best_score(t.spec_records()[rp.1], q));
        lemma_max_score_le(candidates(t.spec_records()[rp.1]), q);
    }
    assert forall|p: int| 0 <= p < pos implies exact_match(#[trigger] spec_search(t, q)[p], q) by {
        let rp = ranked[p];
        assert(rp.0 == best_score(t.spec_records()[rp.1], q));
        assert(rp.0 == SCORE_ONE + PREFIX_BOOST);
        lemma_top_score_is_exact(t.spec_records()[rp.1], q);
        assert(spec_search(t, q)[p] == t.spec_records()[rp.1]);
    }
    assert(0 <= pos < spec_search(t, q).len() && spec_search(t, q)[pos] == t.spec_records()[i]
        && (forall|p: int|
        0 <= p < pos ==> ranked_matches(t, q, t.spec_records().len() as int)[p].0 == SCORE_ONE
            + PREFIX_BOOST) && (forall|p: int|
        0 <= p < pos ==> exact_match(#[trigger] spec_search(t, q)[p], q)));
}

/// Search all emojis of the table.
///
/// The query is scored against every record's CLDR name and gemoji
/// shortcodes; records beating the threshold come back ranked best
/// first, ties in table order. Calling twice with the same table and
/// query returns the same sequence: the result is a function of the
/// two alone.
pub fn search<'a>(table: &'a EmojiTable, query: &str) -> (r: Vec<&'a Emoji>)
    ensures
        r@.map_values(|e: &Emoji| *e) == spec_search(*table, query@),
{
    let qchars = chars_of(query);
    let recs = table.records();
    let n = recs.len();
    let mut scored: Vec<(u64, usize)> = Vec::new();
    let mut i: usize = 0;
    while i < n
        invariant
            n == table.spec_records().len(),
            recs@ == table.spec_records(),
            qchars@ == query@,
            i <= n,
            scored@.map_values(pair_view()) == ranked_matches(*table, query@, i as int),
            forall|k: int| 0 <= k < scored@.len() ==> (#[trigger] scored@[k]).1 < i,
        decreases n - i,
    {
        match emoji_score(&recs[i], query, &qchars) {
            Some(sc) => {
                let j = insert_position(&scored, sc, i);
                proof {
                    lemma_insert_ranked_at(
                        scored@.map_values(pair_view()),
                        (sc as int, i as int),
                        j as int,
                    );
                }
                let ghost old_scored = scored@;
                scored.insert(j, (sc, i));
                proof {
                    assert(scored@.map_values(pair_view()) =~= old_scored.map_values(
                        pair_view(),
                    ).insert(j as int, (sc as int, i as int)));
                    assert(scored@.map_values(pair_view()) == ranked_matches(
                        *table,
                        query@,
                        i as int + 1,
                    ));
                }
            },
            None => {},
        }
        i = i + 1;
    }
    let ghost ranked = ranked_matches(*table, query@, n as int);
    let m = scored.len();
    let mut out: Vec<&Emoji> = Vec::new();
    let mut k: usize = 0;
    while k < m
        invariant
            m == scored@.len(),
            n == table.spec_records().len(),
            recs@ == table.spec_records(),
            ranked == scored@.map_values(pair_view()),
            forall|t: int| 0 <= t < scored@.len() ==> (#[trigger] scored@[t]).1 < n,
            k <= m,
            out@.len() == k,
            forall|t: int|
                0 <= t < k ==> *(#[trigger] out@[t]) == table.spec_records()[scored@[t].1 as int],
        decreases m - k,
    {
        let idx = scored[k].1;
        out.push(&recs[idx]);
        k = k + 1;
    }
    proof {
        assert(out@.map_values(|e: &Emoji| *e) =~= spec_search(*table, query@));
    }
    out
}

} // verus!
