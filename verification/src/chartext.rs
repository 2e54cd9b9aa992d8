//! Character-level text utilities: conversions between strings and
//! character vectors, and small verified scanning helpers used by the
//! data parser and the search scoring.

use vstd::prelude::*;
use vstd::std_specs::iter::IteratorSpec;

verus! {

broadcast use vstd::string::group_string_axioms;

/// `p` is a prefix of `s`.
pub open spec fn is_prefix_of(p: Seq<char>, s: Seq<char>) -> bool {
    p.len() <= s.len() && s.subrange(0, p.len() as int) == p
}

/// The characters of a string, in order.
pub fn chars_of(s: &str) -> (r: Vec<char>)
    ensures
        r@ == s@,
{
    let mut it = s.chars();
    let mut v: Vec<char> = Vec::new();
    loop
        invariant
            it.obeys_prophetic_iter_laws(),
            it.decrease() is Some,
            v@ + it.remaining() == s@,
        ensures
            v@ == s@,
        decreases it.decrease()->0,
    {
        match it.next() {
            Some(c) => {
                v.push(c);
                proof {
                    assert(v@ + it.remaining() =~= s@);
                }
            },
            None => {
                proof {
                    assert(v@ =~= v@ + it.remaining());
                }
                break;
            },
        }
    }
    v
}

/// Relies on `String::from_iter`: collecting characters yields the
/// string holding exactly those characters, in order.
#[verifier::external_body]
pub fn string_of_chars(v: &Vec<char>) -> (r: String)
    ensures
        r@ == v@,
{
    v.iter().collect()
}

/// Whether a code point value denotes a Unicode scalar value, i.e. a
/// `char`: below the surrogate range or between it and the maximum.
pub open spec fn is_scalar_value(u: u32) -> bool {
    u < 0xD800 || (0xE000 <= u && u <= 0x10FFFF)
}

/// Relies on `char::from_u32`: it returns the character with the given
/// code point value exactly when that value is a Unicode scalar value.
#[verifier::external_body]
pub fn char_from_u32(u: u32) -> (r: Option<char>)
    ensures
        r is Some <==> is_scalar_value(u),
        match r {
            Some(c) => c as u32 == u,
            None => true,
        },
{
    char::from_u32(u)
}

/// Whether `s` starts with `p` at offset `off`.
pub fn starts_with_at(s: &Vec<char>, off: usize, p: &Vec<char>) -> (r: bool)
    requires
        off <= s@.len(),
    ensures
        r == is_prefix_of(p@, s@.subrange(off as int, s@.len() as int)),
{
    let n = s.len();
    let m = p.len();
    if m > n - off {
        return false;
    }
    let ghost tail = s@.subrange(off as int, s@.len() as int);
    let mut i: usize = 0;
    while i < m
        invariant
            off + m <= n,
            n == s@.len(),
            m == p@.len(),
            i <= m,
            tail == s@.subrange(off as int, s@.len() as int),
            forall|j: int| 0 <= j < i ==> tail[j] == p@[j],
        decreases m - i,
    {
        if s[off + i] != p[i] {
            proof {
                assert(tail[i as int] == s@[off + i]);
            }
            return false;
        }
        proof {
            assert(tail[i as int] == s@[off + i]);
        }
        i = i + 1;
    }
    proof {
        assert(tail.subrange(0, m as int) =~= p@);
    }
    true
}

/// The two character sequences are the same.
pub fn chars_eq(a: &Vec<char>, b: &Vec<char>) -> (r: bool)
    ensures
        r == (a@ == b@),
{
    let n = a.len();
    if n != b.len() {
        return false;
    }
    let mut i: usize = 0;
    while i < n
        invariant
            n == a@.len(),
            n == b@.len(),
            i <= n,
            forall|j: int| 0 <= j < i ==> a@[j] == b@[j],
        decreases n - i,
    {
        if a[i] != b[i] {
            return false;
        }
        i = i + 1;
    }
    proof {
        assert(a@ =~= b@);
    }
    true
}

/// A copy of the characters in `[lo, hi)`.
pub fn sub_chars(v: &Vec<char>, lo: usize, hi: usize) -> (r: Vec<char>)
    requires
        lo <= hi <= v@.len(),
    ensures
        r@ == v@.subrange(lo as int, hi as int),
{
    let mut out: Vec<char> = Vec::new();
    let mut i: usize = lo;
    while i < hi
        invariant
            lo <= i <= hi <= v@.len(),
            out@ == v@.subrange(lo as int, i as int),
        decreases hi - i,
    {
        out.push(v[i]);
        proof {
            assert(out@ =~= v@.subrange(lo as int, i as int + 1));
        }
        i = i + 1;
    }
    out
}

/// A blank character: space or tab or carriage return.
pub open spec fn is_space(c: char) -> bool {
    c == ' ' || c == '\t' || c == '\r'
}

/// The first position at or after `from` holding `c`, or the text's
/// end where none does.
pub open spec fn first_pos(s: Seq<char>, from: int, c: char) -> int
    decreases s.len() - from,
{
    if from < 0 || from >= s.len() {
        s.len() as int
    } else if s[from] == c {
        from
    } else {
        first_pos(s, from + 1, c)
    }
}

/// The first position at or after `lo` (up to `hi`) holding something
/// other than blanks.
pub open spec fn trim_lo(s: Seq<char>, lo: int, hi: int) -> int
    decreases hi - lo,
{
    if lo >= hi {
        hi
    } else if is_space(s[lo]) {
        trim_lo(s, lo + 1, hi)
    } else {
        lo
    }
}

/// The position just past the last non-blank character in `[lo, hi)`,
/// never below `lo`.
pub open spec fn trim_hi(s: Seq<char>, lo: int, hi: int) -> int
    decreases hi - lo,
{
    if hi <= lo {
        lo
    } else if is_space(s[hi - 1]) {
        trim_hi(s, lo, hi - 1)
    } else {
        hi
    }
}

/// A position before which `c` never occurs, and which holds `c` or is
/// the end, is the first occurrence.
pub proof fn lemma_first_pos_is(s: Seq<char>, from: int, c: char, i: int)
    requires
        0 <= from <= i <= s.len(),
        forall|x: int| from <= x < i ==> s[x] != c,
        i < s.len() ==> s[i] == c,
    ensures
        first_pos(s, from, c) == if i < s.len() {
            i
        } else {
            s.len() as int
        },
    decreases i - from,
{
    if from < i {
        lemma_first_pos_is(s, from + 1, c, i);
    }
}

/// Searching a suffix finds the same first occurrence, shifted.
pub proof fn lemma_first_pos_sub(s: Seq<char>, off: int, k: int, c: char)
    requires
        0 <= off,
        0 <= k,
        off + k <= s.len(),
    ensures
        ({
            let suf = s.subrange(off, s.len() as int);
            first_pos(suf, k, c) == if first_pos(s, off + k, c) < s.len() {
                first_pos(s, off + k, c) - off
            } else {
                suf.len() as int
            }
        }),
    decreases s.len() - off - k,
{
    let suf = s.subrange(off, s.len() as int);
    if off + k < s.len() {
        assert(suf[k] == s[off + k]);
        if s[off + k] != c {
            lemma_first_pos_sub(s, off, k + 1, c);
        }
    }
}

/// A position preceded by blanks only, and holding a non-blank or
/// standing at the end, is where trimming from the left stops.
pub proof fn lemma_trim_lo_is(s: Seq<char>, lo: int, hi: int, a: int)
    requires
        0 <= lo <= a <= hi <= s.len(),
        forall|x: int| lo <= x < a ==> is_space(s[x]),
        a < hi ==> !is_space(s[a]),
    ensures
        trim_lo(s, lo, hi) == a,
    decreases a - lo,
{
    if lo < a {
        lemma_trim_lo_is(s, lo + 1, hi, a);
    }
}

/// A position followed by blanks only, and preceded by a non-blank or
/// standing at the start, is where trimming from the right stops.
pub proof fn lemma_trim_hi_is(s: Seq<char>, lo: int, hi: int, b: int)
    requires
        0 <= lo <= b <= hi <= s.len(),
        forall|x: int| b <= x < hi ==> is_space(s[x]),
        b > lo ==> !is_space(s[b - 1]),
    ensures
        trim_hi(s, lo, hi) == b,
    decreases hi - b,
{
    if b < hi {
        lemma_trim_hi_is(s, lo, hi - 1, b);
    }
}

/// The bounds of `[lo, hi)` with blank characters stripped from both
/// ends: everything outside the returned range (within `[lo, hi)`) is
/// blank, a nonempty result neither starts nor ends with a blank, and
/// an all-blank range trims to its right end.
pub fn trim_range(v: &Vec<char>, lo: usize, hi: usize) -> (r: (usize, usize))
    requires
        lo <= hi <= v@.len(),
    ensures
        lo <= r.0 <= r.1 <= hi,
        forall|j: int| lo <= j < r.0 ==> is_space(v@[j]),
        forall|j: int| r.1 <= j < hi ==> is_space(v@[j]),
        r.0 < r.1 ==> !is_space(v@[r.0 as int]) && !is_space(v@[r.1 - 1]),
        r.0 == trim_lo(v@, lo as int, hi as int),
        r.1 == trim_hi(v@, r.0 as int, hi as int),
{
    let mut a: usize = lo;
    while a < hi && (v[a] == ' ' || v[a] == '\t' || v[a] == '\r')
        invariant
            lo <= a <= hi <= v@.len(),
            forall|j: int| lo <= j < a ==> is_space(v@[j]),
        decreases hi - a,
    {
        a = a + 1;
    }
    let mut b: usize = hi;
    while b > a && (v[b - 1] == ' ' || v[b - 1] == '\t' || v[b - 1] == '\r')
        invariant
            lo <= a <= b <= hi <= v@.len(),
            a == hi || !is_space(v@[a as int]),
            forall|j: int| lo <= j < a ==> is_space(v@[j]),
            forall|j: int| b <= j < hi ==> is_space(v@[j]),
        decreases b,
    {
        b = b - 1;
    }
    proof {
        lemma_trim_lo_is(v@, lo as int, hi as int, a as int);
        lemma_trim_hi_is(v@, a as int, hi as int, b as int);
    }
    (a, b)
}

/// A hexadecimal digit.
pub open spec fn is_hex_digit(c: char) -> bool {
    ('0' as u32 <= c as u32 && c as u32 <= '9' as u32) || ('a' as u32 <= c as u32 && c as u32
        <= 'f' as u32) || ('A' as u32 <= c as u32 && c as u32 <= 'F' as u32)
}

/// The value of a hexadecimal digit.
pub open spec fn hex_digit_val(c: char) -> int {
    if '0' as u32 <= c as u32 && c as u32 <= '9' as u32 {
        c as u32 - '0' as u32
    } else if 'a' as u32 <= c as u32 && c as u32 <= 'f' as u32 {
        10 + c as u32 - 'a' as u32
    } else {
        10 + c as u32 - 'A' as u32
    }
}

/// A decimal digit.
pub open spec fn is_dec_digit(c: char) -> bool {
    '0' as u32 <= c as u32 && c as u32 <= '9' as u32
}

/// The number a sequence of hexadecimal digits denotes.
pub open spec fn hex_val(s: Seq<char>) -> int
    decreases s.len(),
{
    if s.len() == 0 {
        0
    } else {
        16 * hex_val(s.drop_last()) + hex_digit_val(s.last())
    }
}

/// The number a sequence of decimal digits denotes.
pub open spec fn dec_val(s: Seq<char>) -> int
    decreases s.len(),
{
    if s.len() == 0 {
        0
    } else {
        10 * dec_val(s.drop_last()) + dec_digit_val(s.last())
    }
}

/// The value of a decimal digit.
pub open spec fn dec_digit_val(c: char) -> int {
    c as u32 - '0' as u32
}

/// Every character is a hexadecimal digit.
pub open spec fn all_hex(s: Seq<char>) -> bool {
    forall|j: int| 0 <= j < s.len() ==> is_hex_digit(#[trigger] s[j])
}

/// Every character is a decimal digit.
pub open spec fn all_dec(s: Seq<char>) -> bool {
    forall|j: int| 0 <= j < s.len() ==> is_dec_digit(#[trigger] s[j])
}

/// The value of a run of hexadecimal digits is nonnegative and grows
/// along its prefixes.
proof fn lemma_hex_prefix_le(s: Seq<char>, i: int)
    requires
        all_hex(s),
        0 <= i <= s.len(),
    ensures
        0 <= hex_val(s.subrange(0, i)) <= hex_val(s),
    decreases s.len() - i,
{
    lemma_hex_nonneg(s.subrange(0, i));
    if i < s.len() {
        lemma_hex_prefix_le(s, i + 1);
        assert(s.subrange(0, i + 1).drop_last() =~= s.subrange(0, i));
        assert(s.subrange(0, i + 1).last() == s[i]);
        lemma_hex_nonneg(s.subrange(0, i));
    } else {
        assert(s.subrange(0, i) =~= s);
    }
}

/// A run of hexadecimal digits denotes a nonnegative number.
proof fn lemma_hex_nonneg(s: Seq<char>)
    requires
        all_hex(s),
    ensures
        hex_val(s) >= 0,
    decreases s.len(),
{
    if s.len() > 0 {
        assert(all_hex(s.drop_last()));
        lemma_hex_nonneg(s.drop_last());
    }
}

/// As `lemma_hex_prefix_le`, for decimal digits.
proof fn lemma_dec_prefix_le(s: Seq<char>, i: int)
    requires
        all_dec(s),
        0 <= i <= s.len(),
    ensures
        0 <= dec_val(s.subrange(0, i)) <= dec_val(s),
    decreases s.len() - i,
{
    lemma_dec_nonneg(s.subrange(0, i));
    if i < s.len() {
        lemma_dec_prefix_le(s, i + 1);
        assert(s.subrange(0, i + 1).drop_last() =~= s.subrange(0, i));
        assert(s.subrange(0, i + 1).last() == s[i]);
        lemma_dec_nonneg(s.subrange(0, i));
    } else {
        assert(s.subrange(0, i) =~= s);
    }
}

/// A run of decimal digits denotes a nonnegative number.
proof fn lemma_dec_nonneg(s: Seq<char>)
    requires
        all_dec(s),
    ensures
        dec_val(s) >= 0,
    decreases s.len(),
{
    if s.len() > 0 {
        assert(all_dec(s.drop_last()));
        lemma_dec_nonneg(s.drop_last());
    }
}

/// The value of a hexadecimal digit character, if it is one.
pub fn hex_digit_of(c: char) -> (r: Option<u8>)
    ensures
        r is Some <==> is_hex_digit(c),
        match r {
            Some(d) => d as int == hex_digit_val(c) && d < 16,
            None => true,
        },
{
    let u = c as u32;
    if u >= '0' as u32 && u <= '9' as u32 {
        Some((u - '0' as u32) as u8)
    } else if u >= 'a' as u32 && u <= 'f' as u32 {
        Some((10 + u - 'a' as u32) as u8)
    } else if u >= 'A' as u32 && u <= 'F' as u32 {
        Some((10 + u - 'A' as u32) as u8)
    } else {
        None
    }
}

/// The number the hexadecimal digits in `[lo, hi)` denote, when they
/// are a nonempty run of such digits whose value fits in `u32`.
pub fn parse_hex_u32(v: &Vec<char>, lo: usize, hi: usize) -> (r: Option<u32>)
    requires
        lo <= hi <= v@.len(),
    ensures
        ({
            let s = v@.subrange(lo as int, hi as int);
            match r {
                Some(x) => s.len() > 0 && all_hex(s) && x as int == hex_val(s),
                None => s.len() == 0 || !all_hex(s) || hex_val(s) > u32::MAX,
            }
        }),
{
    let ghost s = v@.subrange(lo as int, hi as int);
    if lo == hi {
        return None;
    }
    let mut acc: u64 = 0;
    let mut i: usize = lo;
    while i < hi
        invariant
            lo <= i <= hi <= v@.len(),
            s == v@.subrange(lo as int, hi as int),
            all_hex(s.subrange(0, i - lo)),
            acc as int == hex_val(s.subrange(0, i - lo)),
            acc <= u32::MAX,
        decreases hi - i,
    {
        let ghost pre = s.subrange(0, i - lo);
        let ghost pre1 = s.subrange(0, i + 1 - lo);
        proof {
            assert(pre1.drop_last() =~= pre);
            assert(pre1.last() == v@[i as int]);
        }
        match hex_digit_of(v[i]) {
            Some(d) => {
                acc = acc * 16 + d as u64;
                if acc > u32::MAX as u64 {
                    proof {
                        if all_hex(s) {
                            lemma_hex_prefix_le(s, i + 1 - lo);
                        }
                    }
                    return None;
                }
            },
            None => {
                proof {
                    assert(!is_hex_digit(s[i - lo]));
                }
                return None;
            },
        }
        i = i + 1;
    }
    proof {
        assert(s.subrange(0, hi - lo) =~= s);
    }
    Some(acc as u32)
}

/// The number the decimal digits in `[lo, hi)` denote, when they are
/// a nonempty run of such digits whose value fits in `u32`.
pub fn parse_dec_u32(v: &Vec<char>, lo: usize, hi: usize) -> (r: Option<u32>)
    requires
        lo <= hi <= v@.len(),
    ensures
        ({
            let s = v@.subrange(lo as int, hi as int);
            match r {
                Some(x) => s.len() > 0 && all_dec(s) && x as int == dec_val(s),
                None => s.len() == 0 || !all_dec(s) || dec_val(s) > u32::MAX,
            }
        }),
{
    let ghost s = v@.subrange(lo as int, hi as int);
    if lo == hi {
        return None;
    }
    let mut acc: u64 = 0;
    let mut i: usize = lo;
    while i < hi
        invariant
            lo <= i <= hi <= v@.len(),
            s == v@.subrange(lo as int, hi as int),
            all_dec(s.subrange(0, i - lo)),
            acc as int == dec_val(s.subrange(0, i - lo)),
            acc <= u32::MAX,
        decreases hi - i,
    {
        let ghost pre = s.subrange(0, i - lo);
        let ghost pre1 = s.subrange(0, i + 1 - lo);
        proof {
            assert(pre1.drop_last() =~= pre);
            assert(pre1.last() == v@[i as int]);
        }
        let c = v[i];
        let u = c as u32;
        if u >= '0' as u32 && u <= '9' as u32 {
            proof {
                assert(s[i - lo] == v@[i as int]);
                assert(is_dec_digit(c));
                assert(dec_digit_val(c) == u - '0' as u32);
            }
            acc = acc * 10 + (u - '0' as u32) as u64;
            if acc > u32::MAX as u64 {
                proof {
                    if all_dec(s) {
                        lemma_dec_prefix_le(s, i + 1 - lo);
                    }
                }
                return None;
            }
        } else {
            proof {
                assert(!is_dec_digit(s[i - lo]));
            }
            return None;
        }
        i = i + 1;
    }
    proof {
        assert(s.subrange(0, hi - lo) =~= s);
    }
    Some(acc as u32)
}

/// The first position at or after `from` holding `c`, if any.
pub fn find_char_from(s: &Vec<char>, from: usize, c: char) -> (r: Option<usize>)
    requires
        from <= s@.len(),
    ensures
        match r {
            Some(i) => {
                &&& from <= i < s@.len()
                &&& s@[i as int] == c
                &&& forall|j: int| from <= j < i ==> s@[j] != c
                &&& first_pos(s@, from as int, c) == i
            },
            None => (forall|j: int| from <= j < s@.len() ==> s@[j] != c) && first_pos(
                s@,
                from as int,
                c,
            ) == s@.len(),
        },
{
    let n = s.len();
    let mut i: usize = from;
    while i < n
        invariant
            n == s@.len(),
            from <= i <= n,
            forall|j: int| from <= j < i ==> s@[j] != c,
        decreases n - i,
    {
        if s[i] == c {
            proof {
                lemma_first_pos_is(s@, from as int, c, i as int);
            }
            return Some(i);
        }
        i = i + 1;
    }
    proof {
        lemma_first_pos_is(s@, from as int, c, n as int);
    }
    None
}

} // verus!
