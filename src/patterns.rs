use vstd::prelude::*;

use crate::text::to_chars;
use vstd::string::StrSliceExecFns;

verus! {

/// True when `c` is an ASCII decimal digit.
pub open spec fn is_digit(c: char) -> bool {
    '0' <= c && c <= '9'
}

/// The word "season", in lower case.
pub open spec fn season_lower() -> Seq<char> {
    seq!['s', 'e', 'a', 's', 'o', 'n']
}

/// The word "season", in upper case.
pub open spec fn season_upper() -> Seq<char> {
    seq!['S', 'E', 'A', 'S', 'O', 'N']
}

/// Character `c` stands at place `j` of "season", in either case.
pub open spec fn season_char(c: char, j: int) -> bool {
    c == season_lower()[j] || c == season_upper()[j]
}

/// "season" starts at index `i` of `s`, in any mix of ASCII case.
pub open spec fn season_at(s: Seq<char>, i: int) -> bool {
    &&& 0 <= i
    &&& i + 6 <= s.len()
    &&& forall|j: int| 0 <= j < 6 ==> season_char(#[trigger] s[i + j], j)
}

/// A path names a season directory when it holds "season" anywhere,
/// ignoring ASCII case. This is a plain substring test: "seasoning" counts.
pub open spec fn is_season_path_spec(s: Seq<char>) -> bool {
    exists|i: int| season_at(s, i)
}

/// `S`, one or two digits, `E`, one or two digits, starting at index `i`
/// (the letters in either case). A second digit after the `E` adds nothing
/// to whether the shape is present.
pub open spec fn canonical_at(s: Seq<char>, i: int) -> bool {
    &&& 0 <= i
    &&& i + 4 <= s.len()
    &&& (s[i] == 's' || s[i] == 'S')
    &&& is_digit(s[i + 1])
    &&& {
        ||| ((s[i + 2] == 'e' || s[i + 2] == 'E') && is_digit(s[i + 3]))
        ||| (i + 5 <= s.len() && is_digit(s[i + 2]) && (s[i + 3] == 'e' || s[i + 3] == 'E')
            && is_digit(s[i + 4]))
    }
}

/// A file name that already has the canonical episode shape somewhere in it.
pub open spec fn is_canonical_spec(s: Seq<char>) -> bool {
    exists|i: int| canonical_at(s, i)
}

/// Whether the path `s` holds "season" in any ASCII case.
pub fn is_season_path(s: &str) -> (r: bool)
    ensures
        r == is_season_path_spec(s@),
{
    let c = to_chars(s);
    let lower = ['s', 'e', 'a', 's', 'o', 'n'];
    let upper = ['S', 'E', 'A', 'S', 'O', 'N'];
    assert(lower@ =~= season_lower());
    assert(upper@ =~= season_upper());
    if c.len() < 6 {
        return false;
    }
    let n = c.len();
    let mut i: usize = 0;
    while n - i >= 6
        invariant
            c@ == s@,
            n == c@.len(),
            n >= 6,
            i <= n - 5,
            lower@ == season_lower(),
            upper@ == season_upper(),
            forall|k: int| 0 <= k < i ==> !season_at(s@, k),
        decreases c.len() - i,
    {
        let mut j: usize = 0;
        while j < 6 && (c[i + j] == lower[j] || c[i + j] == upper[j])
            invariant
                c@ == s@,
                n == c@.len(),
                i + 6 <= n,
                j <= 6,
                lower@ == season_lower(),
                upper@ == season_upper(),
                forall|m: int| 0 <= m < j ==> season_char(#[trigger] s@[i + m], m),
            decreases 6 - j,
        {
            j = j + 1;
        }
        if j == 6 {
            assert(season_at(s@, i as int));
            return true;
        }
        assert(!season_at(s@, i as int)) by {
            assert(!season_char(s@[i + j as int], j as int));
        }
        i = i + 1;
    }
    assert forall|k: int| !season_at(s@, k) by {
        if 0 <= k && k >= i {
            assert(k + 6 > s@.len());
        }
    }
    false
}

fn is_s(c: char) -> (r: bool)
    ensures
        r == (c == 's' || c == 'S'),
{
    c == 's' || c == 'S'
}

fn is_e(c: char) -> (r: bool)
    ensures
        r == (c == 'e' || c == 'E'),
{
    c == 'e' || c == 'E'
}

fn digit(c: char) -> (r: bool)
    ensures
        r == is_digit(c),
{
    '0' <= c && c <= '9'
}

/// Whether the name already holds `S<1-2 digits>E<1-2 digits>`, letters in
/// either case, anywhere in it.
pub fn is_canonical_episode_name(s: &str) -> (r: bool)
    ensures
        r == is_canonical_spec(s@),
{
    let c = to_chars(s);
    let n = c.len();
    let mut i: usize = 0;
    if n < 4 {
        assert forall|k: int| !canonical_at(s@, k) by {}
        return false;
    }
    while n - i >= 4
        invariant
            c@ == s@,
            i <= n - 3,
            n == s@.len(),
            forall|k: int| 0 <= k < i ==> !canonical_at(s@, k),
        decreases n - i,
    {
        if is_s(c[i]) && digit(c[i + 1]) {
            if is_e(c[i + 2]) && digit(c[i + 3]) {
                assert(canonical_at(s@, i as int));
                return true;
            }
            if n - i >= 5 && digit(c[i + 2]) && is_e(c[i + 3]) && digit(c[i + 4]) {
                assert(canonical_at(s@, i as int));
                return true;
            }
        }
        i = i + 1;
    }
    assert forall|k: int| !canonical_at(s@, k) by {
        if 0 <= k && k >= i {
            assert(k + 4 > s@.len());
        }
    }
    false
}

/// The first index at or after `i` that holds a digit, or the length of `s`.
pub open spec fn next_digit(s: Seq<char>, i: int) -> int
    decreases s.len() - i,
{
    if i >= s.len() || i < 0 {
        s.len() as int
    } else if is_digit(s[i]) {
        i
    } else {
        next_digit(s, i + 1)
    }
}

/// The first index at or after `i` that holds no digit, or the length of `s`.
pub open spec fn run_end(s: Seq<char>, i: int) -> int
    decreases s.len() - i,
{
    if i >= s.len() || i < 0 {
        s.len() as int
    } else if !is_digit(s[i]) {
        i
    } else {
        run_end(s, i + 1)
    }
}

/// The value of one digit character.
pub open spec fn digit_value(c: char) -> int {
    (c as u32) - ('0' as u32)
}

/// The value of a run of decimal digits; leading zeros add nothing.
pub open spec fn number_value(d: Seq<char>) -> int
    decreases d.len(),
{
    if d.len() == 0 {
        0
    } else {
        number_value(d.drop_last()) * 10 + digit_value(d.last())
    }
}

/// The first two runs of decimal digits in a name, as numbers, and what
/// follows the second run. `None` when there are fewer than two runs, or when
/// either number is above 255.
///
/// Any two numbers are taken: a resolution tag and a disc number would be
/// read as a season and an episode just the same.
pub open spec fn extract_spec(s: Seq<char>) -> Option<(u8, u8, Seq<char>)> {
    let a = next_digit(s, 0);
    let b = run_end(s, a);
    let c = next_digit(s, b);
    let d = run_end(s, c);
    let n1 = number_value(s.subrange(a, b));
    let n2 = number_value(s.subrange(c, d));
    if c >= s.len() || n1 > 255 || n2 > 255 {
        None
    } else {
        Some((n1 as u8, n2 as u8, s.subrange(d, s.len() as int)))
    }
}

proof fn lemma_next_digit_bounds(s: Seq<char>, i: int)
    requires
        0 <= i <= s.len(),
    ensures
        i <= next_digit(s, i) <= s.len(),
        next_digit(s, i) < s.len() ==> is_digit(s[next_digit(s, i)]),
    decreases s.len() - i,
{
    if i < s.len() && !is_digit(s[i]) {
        lemma_next_digit_bounds(s, i + 1);
    }
}

proof fn lemma_run_end_bounds(s: Seq<char>, i: int)
    requires
        0 <= i <= s.len(),
    ensures
        i <= run_end(s, i) <= s.len(),
        forall|k: int| i <= k < run_end(s, i) ==> is_digit(#[trigger] s[k]),
    decreases s.len() - i,
{
    if i < s.len() && is_digit(s[i]) {
        lemma_run_end_bounds(s, i + 1);
    }
}

fn skip_non_digits(c: &Vec<char>, i: usize) -> (r: usize)
    requires
        i <= c@.len(),
    ensures
        r == next_digit(c@, i as int),
{
    let mut k = i;
    while k < c.len() && !digit(c[k])
        invariant
            i <= k <= c@.len(),
            next_digit(c@, k as int) == next_digit(c@, i as int),
        decreases c@.len() - k,
    {
        k = k + 1;
    }
    k
}

fn skip_digits(c: &Vec<char>, i: usize) -> (r: usize)
    requires
        i <= c@.len(),
    ensures
        r == run_end(c@, i as int),
{
    let mut k = i;
    while k < c.len() && digit(c[k])
        invariant
            i <= k <= c@.len(),
            run_end(c@, k as int) == run_end(c@, i as int),
        decreases c@.len() - k,
    {
        k = k + 1;
    }
    k
}

/// The number written by the digits `c[a..b]`, when it fits in a `u8`.
fn parse_u8(c: &Vec<char>, a: usize, b: usize) -> (r: Option<u8>)
    requires
        a <= b <= c@.len(),
        forall|k: int| a <= k < b ==> is_digit(#[trigger] c@[k]),
    ensures
        number_value(c@.subrange(a as int, b as int)) <= 255 ==> r == Some(
            number_value(c@.subrange(a as int, b as int)) as u8,
        ),
        number_value(c@.subrange(a as int, b as int)) > 255 ==> r is None,
{
    let mut v: u32 = 0;
    let mut big = false;
    let mut k = a;
    assert(c@.subrange(a as int, a as int).len() == 0);
    while k < b
        invariant
            a <= k <= b <= c@.len(),
            forall|m: int| a <= m < b ==> is_digit(#[trigger] c@[m]),
            big ==> number_value(c@.subrange(a as int, k as int)) > 255,
            !big ==> v == number_value(c@.subrange(a as int, k as int)) && v <= 255,
        decreases b - k,
    {
        let ghost prev = c@.subrange(a as int, k as int);
        let ghost next = c@.subrange(a as int, k + 1);
        assert(next.drop_last() =~= prev);
        assert(next.last() == c@[k as int]);
        assert(is_digit(c@[k as int]));
        let d = (c[k] as u32) - ('0' as u32);
        if !big {
            v = v * 10 + d;
            if v > 255 {
                big = true;
            }
        }
        k = k + 1;
    }
    if big {
        None
    } else {
        Some(v as u8)
    }
}

/// Finds the first run of decimal digits, then the next run after it, and
/// returns both as numbers with everything that follows the second run
/// (most often the extension with its dot). `None` when the name holds
/// fewer than two runs, or when a number does not fit in 0..=255.
pub fn extract_numbers(s: &str) -> (r: Option<(u8, u8, String)>)
    ensures
        match r {
            Some((n1, n2, rest)) => extract_spec(s@) == Some((n1, n2, rest@)),
            None => extract_spec(s@) is None,
        },
{
    let c = to_chars(s);
    let n = c.len();
    let a = skip_non_digits(&c, 0);
    proof {
        lemma_next_digit_bounds(c@, 0);
        lemma_run_end_bounds(c@, a as int);
    }
    let b = skip_digits(&c, a);
    proof {
        lemma_next_digit_bounds(c@, b as int);
    }
    let p = skip_non_digits(&c, b);
    proof {
        lemma_run_end_bounds(c@, p as int);
    }
    let q = skip_digits(&c, p);
    if p >= n {
        return None;
    }
    let n1 = parse_u8(&c, a, b);
    let n2 = parse_u8(&c, p, q);
    match (n1, n2) {
        (Some(x), Some(y)) => {
            let rest = s.substring_char(q, n).to_owned();
            Some((x, y, rest))
        },
        _ => None,
    }
}

} // verus!
