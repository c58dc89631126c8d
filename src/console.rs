use vstd::prelude::*;

use crate::text::to_chars;
use vstd::string::StrSliceExecFns;

verus! {

/// The characters that Unicode marks `White_Space`, the ones `str::trim`
/// removes.
pub open spec fn is_white_space(c: char) -> bool {
    ('\u{9}' <= c && c <= '\u{d}') || c == ' ' || c == '\u{85}' || c == '\u{a0}' || c
        == '\u{1680}' || ('\u{2000}' <= c && c <= '\u{200a}') || c == '\u{2028}' || c
        == '\u{2029}' || c == '\u{202f}' || c == '\u{205f}' || c == '\u{3000}'
}

fn white_space(c: char) -> (r: bool)
    ensures
        r == is_white_space(c),
{
    ('\u{9}' <= c && c <= '\u{d}') || c == ' ' || c == '\u{85}' || c == '\u{a0}' || c
        == '\u{1680}' || ('\u{2000}' <= c && c <= '\u{200a}') || c == '\u{2028}' || c
        == '\u{2029}' || c == '\u{202f}' || c == '\u{205f}' || c == '\u{3000}'
}

/// The first index at or after `i` that holds no white space, or the length.
pub open spec fn lead_end(s: Seq<char>, i: int) -> int
    decreases s.len() - i,
{
    if i >= s.len() || i < 0 {
        s.len() as int
    } else if !is_white_space(s[i]) {
        i
    } else {
        lead_end(s, i + 1)
    }
}

/// The end of `s[..j]` once trailing white space is cut off.
pub open spec fn trail_start(s: Seq<char>, j: int) -> int
    decreases j,
{
    if j <= 0 || j > s.len() {
        0
    } else if !is_white_space(s[j - 1]) {
        j
    } else {
        trail_start(s, j - 1)
    }
}

/// `s` without leading and trailing white space.
pub open spec fn trimmed(s: Seq<char>) -> Seq<char> {
    let a = lead_end(s, 0);
    if a >= s.len() {
        Seq::empty()
    } else {
        s.subrange(a, trail_start(s, s.len() as int))
    }
}

proof fn lemma_trail_after_lead(s: Seq<char>, a: int, j: int)
    requires
        0 <= a < j <= s.len(),
        !is_white_space(s[a]),
    ensures
        a < trail_start(s, j) <= j,
    decreases j,
{
    if is_white_space(s[j - 1]) {
        lemma_trail_after_lead(s, a, j - 1);
    }
}

/// What the operator answered at the start.
#[derive(PartialEq, Eq, Structural, Debug, Clone, Copy)]
pub enum StartupChoice {
    Proceed,
    Quit,
    AskAgain,
}

/// What the operator answered about one plan.
#[derive(PartialEq, Eq, Structural, Debug, Clone, Copy)]
pub enum PlanChoice {
    Apply,
    Skip,
    Quit,
    AskAgain,
}

/// `t` is the word of three letters `w`, in any ASCII case.
pub open spec fn is_word3(t: Seq<char>, lower: Seq<char>, upper: Seq<char>) -> bool {
    t.len() == 3 && forall|k: int| 0 <= k < 3 ==> (#[trigger] t[k] == lower[k] || t[k] == upper[k])
}

pub open spec fn is_yes(t: Seq<char>) -> bool {
    is_word3(t, seq!['y', 'e', 's'], seq!['Y', 'E', 'S'])
}

pub open spec fn is_quit(t: Seq<char>) -> bool {
    t.len() == 4 && (t[0] == 'q' || t[0] == 'Q') && (t[1] == 'u' || t[1] == 'U') && (t[2] == 'i'
        || t[2] == 'I') && (t[3] == 't' || t[3] == 'T')
}

pub open spec fn startup_choice_spec(line: Seq<char>) -> StartupChoice {
    let t = trimmed(line);
    if is_yes(t) {
        StartupChoice::Proceed
    } else if is_quit(t) {
        StartupChoice::Quit
    } else {
        StartupChoice::AskAgain
    }
}

pub open spec fn plan_choice_spec(line: Seq<char>) -> PlanChoice {
    if line.len() == 0 {
        PlanChoice::AskAgain
    } else if line[0] == 'y' || line[0] == 'Y' {
        PlanChoice::Apply
    } else if line[0] == 'n' || line[0] == 'N' {
        PlanChoice::Skip
    } else if line[0] == 'q' || line[0] == 'Q' {
        PlanChoice::Quit
    } else {
        PlanChoice::AskAgain
    }
}

/// The line without leading and trailing white space.
pub fn trim_line(s: &str) -> (r: String)
    ensures
        r@ == trimmed(s@),
{
    let c = to_chars(s);
    let n = c.len();
    let mut a: usize = 0;
    while a < n && white_space(c[a])
        invariant
            c@ == s@,
            n == s@.len(),
            a <= n,
            lead_end(s@, a as int) == lead_end(s@, 0),
        decreases n - a,
    {
        a = a + 1;
    }
    if a == n {
        return String::new();
    }
    let mut b: usize = n;
    proof {
        lemma_trail_after_lead(s@, a as int, n as int);
    }
    while white_space(c[b - 1])
        invariant
            c@ == s@,
            n == s@.len(),
            a < b <= n,
            !is_white_space(s@[a as int]),
            trail_start(s@, b as int) == trail_start(s@, n as int),
            a < trail_start(s@, n as int),
        decreases b,
    {
        b = b - 1;
    }
    s.substring_char(a, b).to_owned()
}

/// Reads the answer to the opening question: `yes` goes on, `quit` ends the
/// program, in any ASCII case and with white space around; anything else
/// asks again.
pub fn startup_choice(line: &str) -> (r: StartupChoice)
    ensures
        r == startup_choice_spec(line@),
{
    let t = to_chars(trim_line(line).as_str());
    if t.len() == 3 && (t[0] == 'y' || t[0] == 'Y') && (t[1] == 'e' || t[1] == 'E') && (t[2]
        == 's' || t[2] == 'S') {
        assert(is_yes(t@));
        StartupChoice::Proceed
    } else if t.len() == 4 && (t[0] == 'q' || t[0] == 'Q') && (t[1] == 'u' || t[1] == 'U') && (
    t[2] == 'i' || t[2] == 'I') && (t[3] == 't' || t[3] == 'T') {
        assert(!is_yes(t@));
        StartupChoice::Quit
    } else {
        assert(!is_yes(t@)) by {
            if t@.len() == 3 {
                assert(!(t@[0] == 'y' || t@[0] == 'Y') || !(t@[1] == 'e' || t@[1] == 'E') || !(
                t@[2] == 's' || t@[2] == 'S'));
            }
        }
        StartupChoice::AskAgain
    }
}

/// Reads the answer about one plan from the first character of the line,
/// in any ASCII case: `y` applies it, `n` skips it, `q` ends the whole run;
/// anything else, or an empty line, asks again.
pub fn plan_choice(line: &str) -> (r: PlanChoice)
    ensures
        r == plan_choice_spec(line@),
{
    if line.unicode_len() == 0 {
        return PlanChoice::AskAgain;
    }
    let c = line.get_char(0);
    if c == 'y' || c == 'Y' {
        PlanChoice::Apply
    } else if c == 'n' || c == 'N' {
        PlanChoice::Skip
    } else if c == 'q' || c == 'Q' {
        PlanChoice::Quit
    } else {
        PlanChoice::AskAgain
    }
}

} // verus!
