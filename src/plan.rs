use vstd::multiset::Multiset;
use vstd::prelude::*;

use crate::patterns::{
    canonical_at, extract_numbers, extract_spec, is_canonical_episode_name, is_canonical_spec,
    is_digit, next_digit, run_end,
};
use crate::text::{seq_le, str_le, lemma_seq_le_total, lemma_seq_le_trans};
use vstd::string::{StrSliceExecFns, StringExecFns};

verus! {

/// The character that writes digit `d` (0 to 9).
pub open spec fn digit_char(d: int) -> char {
    seq!['0', '1', '2', '3', '4', '5', '6', '7', '8', '9'][d]
}

/// `n` in decimal, padded with a zero to at least two digits.
pub open spec fn padded(n: u8) -> Seq<char> {
    if n < 10 {
        seq!['0', digit_char(n as int)]
    } else if n < 100 {
        seq![digit_char(n as int / 10), digit_char(n as int % 10)]
    } else {
        seq![digit_char(n as int / 100), digit_char((n as int / 10) % 10), digit_char(n as int % 10)]
    }
}

/// The canonical file name for season `n1`, episode `n2`, followed by `rest`.
pub open spec fn canonical_name(n1: u8, n2: u8, rest: Seq<char>) -> Seq<char> {
    seq!['S'] + padded(n1) + seq!['E'] + padded(n2) + rest
}

/// The full target path: the same parent directory, a `/`, the canonical name.
pub open spec fn target_path(parent: Seq<char>, n1: u8, n2: u8, rest: Seq<char>) -> Seq<char> {
    parent + seq!['/'] + canonical_name(n1, n2, rest)
}

/// One entry of a season directory: its full path, the path of the
/// directory it is in, and its own file name.
pub struct Entry {
    pub path: String,
    pub parent: String,
    pub name: String,
}

impl View for Entry {
    type V = (Seq<char>, Seq<char>, Seq<char>);

    open spec fn view(&self) -> (Seq<char>, Seq<char>, Seq<char>) {
        (self.path@, self.parent@, self.name@)
    }
}

/// A file considered for renaming: its path, and the path it would get,
/// or `None` when its name holds no season and episode numbers.
pub struct Candidate {
    pub original: String,
    pub proposed: Option<String>,
}

impl View for Candidate {
    type V = (Seq<char>, Option<Seq<char>>);

    open spec fn view(&self) -> (Seq<char>, Option<Seq<char>>) {
        (
            self.original@,
            match self.proposed {
                Some(p) => Some(p@),
                None => None,
            },
        )
    }
}

/// What the planner makes of one entry: nothing for a name that is already
/// canonical; otherwise a candidate, with a target when two numbers could be
/// read from the name.
pub open spec fn candidate_spec(e: (Seq<char>, Seq<char>, Seq<char>)) -> Option<
    (Seq<char>, Option<Seq<char>>),
> {
    if is_canonical_spec(e.2) {
        None
    } else {
        Some(
            (
                e.0,
                match extract_spec(e.2) {
                    Some((n1, n2, rest)) => Some(target_path(e.1, n1, n2, rest)),
                    None => None,
                },
            ),
        )
    }
}

/// The candidates of a listing, in listing order.
pub open spec fn planned(es: Seq<(Seq<char>, Seq<char>, Seq<char>)>) -> Seq<
    (Seq<char>, Option<Seq<char>>),
>
    decreases es.len(),
{
    if es.len() == 0 {
        Seq::empty()
    } else {
        match candidate_spec(es.last()) {
            Some(c) => planned(es.drop_last()).push(c),
            None => planned(es.drop_last()),
        }
    }
}

pub open spec fn entry_views(es: Seq<Entry>) -> Seq<(Seq<char>, Seq<char>, Seq<char>)> {
    es.map_values(|e: Entry| e@)
}

pub open spec fn candidate_views(cs: Seq<Candidate>) -> Seq<(Seq<char>, Option<Seq<char>>)> {
    cs.map_values(|c: Candidate| c@)
}

/// Candidates in order of their original paths.
pub open spec fn sorted_by_original(cs: Seq<(Seq<char>, Option<Seq<char>>)>) -> bool {
    forall|i: int, j: int| 0 <= i < j < cs.len() ==> seq_le(cs[i].0, cs[j].0)
}

fn digit_str(d: u8) -> (r: &'static str)
    requires
        d < 10,
    ensures
        r@ == seq![digit_char(d as int)],
{
    let digits = "0123456789";
    proof {
        reveal_strlit("0123456789");
    }
    let r = digits.substring_char(d as usize, d as usize + 1);
    assert(r@ =~= seq![digit_char(d as int)]);
    r
}

fn push_padded(s: &mut String, n: u8)
    ensures
        final(s)@ == old(s)@ + padded(n),
{
    if n < 10 {
        s.append(digit_str(0));
        s.append(digit_str(n));
    } else if n < 100 {
        s.append(digit_str(n / 10));
        s.append(digit_str(n % 10));
    } else {
        s.append(digit_str(n / 100));
        s.append(digit_str((n / 10) % 10));
        s.append(digit_str(n % 10));
    }
    assert(final(s)@ =~= old(s)@ + padded(n));
}

/// The target path for season `n1`, episode `n2` and the rest of the name.
pub fn target_for(parent: &str, n1: u8, n2: u8, rest: &str) -> (r: String)
    ensures
        r@ == target_path(parent@, n1, n2, rest@),
{
    let mut s = String::from_str(parent);
    proof {
        reveal_strlit("/S");
        reveal_strlit("E");
    }
    s.append("/S");
    push_padded(&mut s, n1);
    s.append("E");
    push_padded(&mut s, n2);
    s.append(rest);
    assert(s@ =~= target_path(parent@, n1, n2, rest@));
    s
}

/// Classifies one entry: `None` when its name is already canonical, else a
/// candidate whose target is the canonical name in the same directory, or
/// absent when the name does not yield two numbers.
pub fn plan_entry(e: &Entry) -> (r: Option<Candidate>)
    ensures
        match r {
            Some(c) => candidate_spec(e@) == Some(c@),
            None => candidate_spec(e@) is None,
        },
{
    if is_canonical_episode_name(e.name.as_str()) {
        return None;
    }
    let original = String::from_str(e.path.as_str());
    match extract_numbers(e.name.as_str()) {
        Some((n1, n2, rest)) => {
            let target = target_for(e.parent.as_str(), n1, n2, rest.as_str());
            Some(Candidate { original, proposed: Some(target) })
        },
        None => Some(Candidate { original, proposed: None }),
    }
}

/// Sorts candidates by their original paths, keeping each of them.
fn sort_by_original(v: Vec<Candidate>) -> (r: Vec<Candidate>)
    ensures
        candidate_views(r@).to_multiset() == candidate_views(v@).to_multiset(),
        sorted_by_original(candidate_views(r@)),
{
    broadcast use vstd::seq_lib::group_to_multiset_ensures;
    broadcast use vstd::multiset::group_multiset_axioms;

    let mut rem = v;
    let mut out: Vec<Candidate> = Vec::new();
    assert(candidate_views(out@) =~= Seq::empty());
    assert(candidate_views(out@).to_multiset() =~= Multiset::empty());
    while rem.len() > 0
        invariant
            candidate_views(out@).to_multiset().add(candidate_views(rem@).to_multiset())
                == candidate_views(v@).to_multiset(),
            sorted_by_original(candidate_views(out@)),
            forall|i: int, j: int|
                0 <= i < out@.len() && 0 <= j < rem@.len() ==> seq_le(
                    out@[i].original@,
                    rem@[j].original@,
                ),
        decreases rem.len(),
    {
        let mut m: usize = 0;
        let mut k: usize = 1;
        proof {
            lemma_seq_le_total(rem@[0].original@, rem@[0].original@);
        }
        while k < rem.len()
            invariant
                0 <= m < rem@.len(),
                1 <= k <= rem@.len(),
                forall|j: int| 0 <= j < k ==> seq_le(rem@[m as int].original@, #[trigger] rem@[j].original@),
            decreases rem.len() - k,
        {
            if !str_le(rem[m].original.as_str(), rem[k].original.as_str()) {
                proof {
                    lemma_seq_le_total(rem@[m as int].original@, rem@[k as int].original@);
                    assert forall|j: int| 0 <= j < k + 1 implies seq_le(rem@[k as int].original@, #[trigger] rem@[j].original@) by {
                        if j < k {
                            lemma_seq_le_trans(rem@[k as int].original@, rem@[m as int].original@, rem@[j].original@);
                        } else {
                            lemma_seq_le_total(rem@[k as int].original@, rem@[k as int].original@);
                        }
                    }
                }
                m = k;
            }
            k = k + 1;
        }
        let ghost old_out = out@;
        let ghost old_rem = rem@;
        let x = rem.remove(m);
        out.push(x);
        proof {
            assert(candidate_views(rem@) =~= candidate_views(old_rem).remove(m as int));
            assert(candidate_views(out@) =~= candidate_views(old_out).push(x@));
            assert(candidate_views(old_rem)[m as int] == x@);
            candidate_views(old_out).to_multiset_ensures();
            candidate_views(old_rem).to_multiset_ensures();
            let om = candidate_views(old_out).to_multiset();
            let rm = candidate_views(old_rem).to_multiset();
            assert(candidate_views(old_out).push(x@).to_multiset() =~= om.insert(x@));
            assert(candidate_views(old_rem).remove(m as int).to_multiset() =~= rm.remove(
                candidate_views(old_rem)[m as int],
            ));
            assert(candidate_views(old_rem).contains(x@));
            assert(rm.count(x@) > 0);
            assert(candidate_views(out@).to_multiset().add(candidate_views(rem@).to_multiset())
                =~= candidate_views(old_out).to_multiset().add(candidate_views(old_rem).to_multiset()));
            assert forall|i: int, j: int|
                0 <= i < out@.len() && 0 <= j < rem@.len() implies seq_le(
                    out@[i].original@,
                    rem@[j].original@,
                ) by {
                if j < m {
                    assert(rem@[j] == old_rem[j]);
                } else {
                    assert(rem@[j] == old_rem[j + 1]);
                }
                if i < old_out.len() {
                    assert(out@[i] == old_out[i]);
                }
            }
        }
    }
    assert(candidate_views(rem@) =~= Seq::empty());
    assert(candidate_views(rem@).to_multiset() =~= Multiset::empty());
    assert(candidate_views(out@).to_multiset() =~= candidate_views(out@).to_multiset().add(Multiset::empty()));
    out
}

/// Builds the plan of one season directory from its listing: one candidate
/// for each entry whose name is not already canonical, sorted by original
/// path, so that the order does not depend on how the listing came.
pub fn build_plan(entries: Vec<Entry>) -> (r: Vec<Candidate>)
    ensures
        candidate_views(r@).to_multiset() == planned(entry_views(entries@)).to_multiset(),
        sorted_by_original(candidate_views(r@)),
{
    let mut found: Vec<Candidate> = Vec::new();
    let mut i: usize = 0;
    while i < entries.len()
        invariant
            i <= entries@.len(),
            candidate_views(found@) == planned(entry_views(entries@.take(i as int))),
        decreases entries.len() - i,
    {
        let ghost prev = found@;
        let c = plan_entry(&entries[i]);
        proof {
            let es = entry_views(entries@.take(i + 1));
            assert(es.drop_last() =~= entry_views(entries@.take(i as int)));
            assert(es.last() == entries@[i as int]@);
        }
        match c {
            Some(c) => {
                found.push(c);
                assert(candidate_views(found@) =~= candidate_views(prev).push(found@.last()@));
            },
            None => {},
        }
        i = i + 1;
    }
    assert(entries@.take(entries@.len() as int) =~= entries@);
    sort_by_original(found)
}

/// The original paths of the candidates that have no target, in plan order.
pub open spec fn failed_spec(cs: Seq<(Seq<char>, Option<Seq<char>>)>) -> Seq<Seq<char>>
    decreases cs.len(),
{
    if cs.len() == 0 {
        Seq::empty()
    } else if cs.last().1 is None {
        failed_spec(cs.drop_last()).push(cs.last().0)
    } else {
        failed_spec(cs.drop_last())
    }
}

/// The `(original, target)` pairs of the candidates that have a target, in
/// plan order.
pub open spec fn renames_spec(cs: Seq<(Seq<char>, Option<Seq<char>>)>) -> Seq<
    (Seq<char>, Seq<char>),
>
    decreases cs.len(),
{
    if cs.len() == 0 {
        Seq::empty()
    } else {
        match cs.last().1 {
            Some(t) => renames_spec(cs.drop_last()).push((cs.last().0, t)),
            None => renames_spec(cs.drop_last()),
        }
    }
}

pub open spec fn string_views(v: Seq<String>) -> Seq<Seq<char>> {
    v.map_values(|s: String| s@)
}

pub open spec fn pair_views(v: Seq<(String, String)>) -> Seq<(Seq<char>, Seq<char>)> {
    v.map_values(|p: (String, String)| (p.0@, p.1@))
}

/// The paths that could not be renamed, in plan order.
pub fn failures(plan: &Vec<Candidate>) -> (r: Vec<String>)
    ensures
        string_views(r@) == failed_spec(candidate_views(plan@)),
{
    let mut r: Vec<String> = Vec::new();
    let mut i: usize = 0;
    while i < plan.len()
        invariant
            i <= plan@.len(),
            string_views(r@) == failed_spec(candidate_views(plan@.take(i as int))),
        decreases plan.len() - i,
    {
        let ghost prev = r@;
        proof {
            assert(candidate_views(plan@.take(i + 1)).drop_last() =~= candidate_views(plan@.take(i as int)));
        }
        if plan[i].proposed.is_none() {
            r.push(String::from_str(plan[i].original.as_str()));
            assert(string_views(r@) =~= string_views(prev).push(plan@[i as int].original@));
        }
        i = i + 1;
    }
    assert(plan@.take(plan@.len() as int) =~= plan@);
    r
}

/// The renames to perform, `(original, target)`, in plan order.
pub fn renames(plan: &Vec<Candidate>) -> (r: Vec<(String, String)>)
    ensures
        pair_views(r@) == renames_spec(candidate_views(plan@)),
{
    let mut r: Vec<(String, String)> = Vec::new();
    let mut i: usize = 0;
    while i < plan.len()
        invariant
            i <= plan@.len(),
            pair_views(r@) == renames_spec(candidate_views(plan@.take(i as int))),
        decreases plan.len() - i,
    {
        let ghost prev = r@;
        proof {
            assert(candidate_views(plan@.take(i + 1)).drop_last() =~= candidate_views(plan@.take(i as int)));
        }
        match &plan[i].proposed {
            Some(t) => {
                let pair = (String::from_str(plan[i].original.as_str()), String::from_str(t.as_str()));
                r.push(pair);
                assert(pair_views(r@) =~= pair_views(prev).push((plan@[i as int].original@, t@)));
            },
            None => {},
        }
        i = i + 1;
    }
    assert(plan@.take(plan@.len() as int) =~= plan@);
    r
}

/// Whether the operator has to be asked: only when some candidate has a
/// target. A plan of failures alone is shown but never confirmed.
pub fn needs_confirmation(plan: &Vec<Candidate>) -> (r: bool)
    ensures
        r == (renames_spec(candidate_views(plan@)).len() > 0),
{
    let rs = renames(plan);
    rs.len() > 0
}

/// A name already in canonical shape contributes nothing to the plan:
/// leaving it out of the listing yields the same candidates.
pub proof fn lemma_canonical_entry_left_out(es: Seq<(Seq<char>, Seq<char>, Seq<char>)>, i: int)
    requires
        0 <= i < es.len(),
        is_canonical_spec(es[i].2),
    ensures
        planned(es) == planned(es.remove(i)),
    decreases es.len(),
{
    if i == es.len() - 1 {
        assert(es.remove(i) =~= es.drop_last());
    } else {
        lemma_canonical_entry_left_out(es.drop_last(), i);
        assert(es.remove(i).drop_last() =~= es.drop_last().remove(i));
        assert(es.remove(i).last() == es.last());
    }
}

/// A name holds two numbers when a second run of digits follows the first.
pub open spec fn has_two_numbers(s: Seq<char>) -> bool {
    next_digit(s, run_end(s, next_digit(s, 0))) < s.len()
}

/// An entry whose name is not canonical and holds fewer than two numbers
/// becomes a candidate without a target.
pub proof fn lemma_fewer_than_two_numbers(e: (Seq<char>, Seq<char>, Seq<char>))
    requires
        !is_canonical_spec(e.2),
        !has_two_numbers(e.2),
    ensures
        candidate_spec(e) == Some((e.0, None::<Seq<char>>)),
{
}

/// A candidate without a target is listed among the failures, and no rename
/// is made of it: every rename comes from a candidate with that target.
pub proof fn lemma_failed_listed(cs: Seq<(Seq<char>, Option<Seq<char>>)>, i: int)
    requires
        0 <= i < cs.len(),
        cs[i].1 is None,
    ensures
        failed_spec(cs).contains(cs[i].0),
        forall|k: int| 0 <= k < renames_spec(cs).len() ==> exists|j: int|
            0 <= j < cs.len() && j != i && cs[j].0 == #[trigger] renames_spec(cs)[k].0
                && cs[j].1 == Some(renames_spec(cs)[k].1),
    decreases cs.len(),
{
    lemma_renames_from(cs);
    if i == cs.len() - 1 {
        assert(failed_spec(cs).last() == cs[i].0);
    } else {
        lemma_failed_listed(cs.drop_last(), i);
        let r = failed_spec(cs.drop_last());
        let w = choose|w: int| 0 <= w < r.len() && r[w] == cs[i].0;
        assert(failed_spec(cs)[w] == cs[i].0);
    }
    assert forall|k: int| 0 <= k < renames_spec(cs).len() implies exists|j: int|
        0 <= j < cs.len() && j != i && cs[j].0 == #[trigger] renames_spec(cs)[k].0
            && cs[j].1 == Some(renames_spec(cs)[k].1) by {
        let j = choose|j: int|
            0 <= j < cs.len() && cs[j].0 == renames_spec(cs)[k].0 && cs[j].1 == Some(
                renames_spec(cs)[k].1,
            );
        assert(j != i);
    }
}

proof fn lemma_renames_from(cs: Seq<(Seq<char>, Option<Seq<char>>)>)
    ensures
        forall|k: int| 0 <= k < renames_spec(cs).len() ==> exists|j: int|
            0 <= j < cs.len() && cs[j].0 == #[trigger] renames_spec(cs)[k].0 && cs[j].1 == Some(
                renames_spec(cs)[k].1,
            ),
    decreases cs.len(),
{
    if cs.len() > 0 {
        lemma_renames_from(cs.drop_last());
        let p = cs.drop_last();
        assert forall|k: int| 0 <= k < renames_spec(cs).len() implies exists|j: int|
            0 <= j < cs.len() && cs[j].0 == #[trigger] renames_spec(cs)[k].0 && cs[j].1 == Some(
                renames_spec(cs)[k].1,
            ) by {
            if k < renames_spec(p).len() {
                assert(renames_spec(cs)[k] == renames_spec(p)[k]);
                let j = choose|j: int|
                    0 <= j < p.len() && p[j].0 == #[trigger] renames_spec(p)[k].0 && p[j].1 == Some(
                        renames_spec(p)[k].1,
                    );
                assert(cs[j] == p[j]);
            } else {
                assert(cs[cs.len() - 1] == cs.last());
            }
        }
    }
}

/// A listing of canonical names alone gives an empty plan.
pub proof fn lemma_all_canonical_plan_empty(es: Seq<(Seq<char>, Seq<char>, Seq<char>)>)
    requires
        forall|i: int| 0 <= i < es.len() ==> is_canonical_spec(#[trigger] es[i].2),
    ensures
        planned(es).len() == 0,
    decreases es.len(),
{
    if es.len() > 0 {
        assert(is_canonical_spec(es[es.len() - 1].2));
        lemma_all_canonical_plan_empty(es.drop_last());
    }
}

/// A name the planner writes, for numbers below 100, is itself canonical, so
/// the planner leaves it alone on a later run.
pub proof fn lemma_canonical_name_stays(n1: u8, n2: u8, rest: Seq<char>)
    requires
        n1 < 100,
        n2 < 100,
    ensures
        is_canonical_spec(canonical_name(n1, n2, rest)),
{
    let s = canonical_name(n1, n2, rest);
    let ds = seq!['0', '1', '2', '3', '4', '5', '6', '7', '8', '9'];
    assert(forall|d: int| 0 <= d < 10 ==> is_digit(#[trigger] ds[d]));
    assert(s[0] == 'S');
    assert(s[1] == padded(n1)[0]);
    assert(s[2] == padded(n1)[1]);
    assert(s[3] == 'E');
    assert(s[4] == padded(n2)[0]);
    assert(canonical_at(s, 0));
}

} // verus!
