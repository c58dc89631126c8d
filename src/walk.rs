use vstd::multiset::Multiset;
use vstd::prelude::*;

use crate::patterns::{is_season_path, is_season_path_spec};
use crate::text::{lemma_seq_le_total, lemma_seq_le_trans, seq_le, str_le};
use vstd::string::StringExecFns;

verus! {

pub open spec fn path_views(v: Seq<String>) -> Seq<Seq<char>> {
    v.map_values(|s: String| s@)
}

/// Paths in lexicographic order.
pub open spec fn sorted_paths(s: Seq<Seq<char>>) -> bool {
    forall|i: int, j: int| 0 <= i < j < s.len() ==> seq_le(s[i], s[j])
}

/// Sorts paths lexicographically, keeping each of them.
pub fn sort_paths(v: Vec<String>) -> (r: Vec<String>)
    ensures
        path_views(r@).to_multiset() == path_views(v@).to_multiset(),
        sorted_paths(path_views(r@)),
{
    broadcast use vstd::seq_lib::group_to_multiset_ensures;
    broadcast use vstd::multiset::group_multiset_axioms;

    let mut rem = v;
    let mut out: Vec<String> = Vec::new();
    assert(path_views(out@) =~= Seq::empty());
    assert(path_views(out@).to_multiset() =~= Multiset::empty());
    while rem.len() > 0
        invariant
            path_views(out@).to_multiset().add(path_views(rem@).to_multiset()) == path_views(
                v@,
            ).to_multiset(),
            sorted_paths(path_views(out@)),
            forall|i: int, j: int|
                0 <= i < out@.len() && 0 <= j < rem@.len() ==> seq_le(out@[i]@, rem@[j]@),
        decreases rem.len(),
    {
        let mut m: usize = 0;
        let mut k: usize = 1;
        proof {
            lemma_seq_le_total(rem@[0]@, rem@[0]@);
        }
        while k < rem.len()
            invariant
                0 <= m < rem@.len(),
                1 <= k <= rem@.len(),
                forall|j: int| 0 <= j < k ==> seq_le(rem@[m as int]@, #[trigger] rem@[j]@),
            decreases rem.len() - k,
        {
            if !str_le(rem[m].as_str(), rem[k].as_str()) {
                proof {
                    lemma_seq_le_total(rem@[m as int]@, rem@[k as int]@);
                    assert forall|j: int| 0 <= j < k + 1 implies seq_le(
                        rem@[k as int]@,
                        #[trigger] rem@[j]@,
                    ) by {
                        if j < k {
                            lemma_seq_le_trans(rem@[k as int]@, rem@[m as int]@, rem@[j]@);
                        } else {
                            lemma_seq_le_total(rem@[k as int]@, rem@[k as int]@);
                        }
                    }
                }
                m = k;
            }
            k = k + 1;
        }
        let ghost old_out = out@;
        let ghost old_rem = rem@;
        let x = rem.remove(m);
        out.push(x);
        proof {
            assert(path_views(rem@) =~= path_views(old_rem).remove(m as int));
            assert(path_views(out@) =~= path_views(old_out).push(x@));
            path_views(old_out).to_multiset_ensures();
            path_views(old_rem).to_multiset_ensures();
            let om = path_views(old_out).to_multiset();
            let rm = path_views(old_rem).to_multiset();
            assert(path_views(old_out).push(x@).to_multiset() =~= om.insert(x@));
            assert(path_views(old_rem).remove(m as int).to_multiset() =~= rm.remove(
                path_views(old_rem)[m as int],
            ));
            assert(path_views(old_rem).contains(x@));
            assert(rm.count(x@) > 0);
            assert(path_views(out@).to_multiset().add(path_views(rem@).to_multiset())
                =~= path_views(old_out).to_multiset().add(path_views(old_rem).to_multiset()));
            assert forall|i: int, j: int|
                0 <= i < out@.len() && 0 <= j < rem@.len() implies seq_le(
                    out@[i]@,
                    rem@[j]@,
                ) by {
                if j < m {
                    assert(rem@[j] == old_rem[j]);
                } else {
                    assert(rem@[j] == old_rem[j + 1]);
                }
                if i < old_out.len() {
                    assert(out@[i] == old_out[i]);
                }
            }
        }
    }
    assert(path_views(rem@) =~= Seq::empty());
    assert(path_views(rem@).to_multiset() =~= Multiset::empty());
    assert(path_views(out@).to_multiset() =~= path_views(out@).to_multiset().add(
        Multiset::empty(),
    ));
    out
}

/// What to do with a path met during the walk.
#[derive(PartialEq, Eq, Structural, Debug, Clone, Copy)]
pub enum Visit {
    /// The path names a season directory: plan its renames and do not go
    /// further down.
    Season,
    /// Any other path: list it if it is a directory and go down into it.
    Descend,
}

/// How the walk treats a path: a season directory is where it stops.
pub fn visit_kind(path: &str) -> (r: Visit)
    ensures
        r == (if is_season_path_spec(path@) {
            Visit::Season
        } else {
            Visit::Descend
        }),
{
    if is_season_path(path) {
        Visit::Season
    } else {
        Visit::Descend
    }
}

/// A depth-first walk of a directory tree in sorted order. It holds the
/// paths still to visit as a stack: the last one is visited next. The caller
/// lists each directory and hands its entries back with `descend`.
pub struct Walker {
    pending: Vec<String>,
}

impl View for Walker {
    type V = Seq<Seq<char>>;

    /// The paths still to visit, the next one last.
    closed spec fn view(&self) -> Seq<Seq<char>> {
        path_views(self.pending@)
    }
}

impl Walker {
    /// A walk that starts at `root`.
    pub fn new(root: &str) -> (w: Walker)
        ensures
            w@ == seq![root@],
    {
        let mut pending: Vec<String> = Vec::new();
        pending.push(String::from_str(root));
        let w = Walker { pending };
        assert(w@ =~= seq![root@]);
        w
    }

    /// The next path to visit, taken off the walk; `None` once it is done.
    pub fn next_path(&mut self) -> (r: Option<String>)
        ensures
            old(self)@.len() == 0 ==> r is None && final(self)@ == old(self)@,
            old(self)@.len() > 0 ==> r is Some && r->0@ == old(self)@.last() && final(self)@
                == old(self)@.drop_last(),
    {
        if self.pending.len() == 0 {
            return None;
        }
        let r = self.pending.pop();
        assert(self@ =~= old(self)@.drop_last());
        r
    }

    /// Adds the entries of the directory just visited, so that they are
    /// visited next, in lexicographic order, before anything that was waiting.
    pub fn descend(&mut self, entries: Vec<String>)
        ensures
            final(self)@.len() == old(self)@.len() + entries@.len(),
            final(self)@.subrange(0, old(self)@.len() as int) == old(self)@,
            final(self)@.subrange(old(self)@.len() as int, final(self)@.len() as int).reverse()
                .to_multiset() == path_views(entries@).to_multiset(),
            sorted_paths(
                final(self)@.subrange(old(self)@.len() as int, final(self)@.len() as int).reverse(),
            ),
    {
        let ghost ev = path_views(entries@);
        let sorted = sort_paths(entries);
        proof {
            ev.to_multiset_ensures();
            path_views(sorted@).to_multiset_ensures();
        }
        let ghost base = self@;
        let ghost sv = path_views(sorted@);
        let mut i: usize = sorted.len();
        while i > 0
            invariant
                i <= sorted@.len(),
                sv == path_views(sorted@),
                self@ == base + sv.subrange(i as int, sv.len() as int).reverse(),
            decreases i,
        {
            i = i - 1;
            let ghost before = self@;
            self.pending.push(String::from_str(sorted[i].as_str()));
            assert(sv.subrange(i as int, sv.len() as int).reverse() =~= sv.subrange(
                i + 1,
                sv.len() as int,
            ).reverse().push(sv[i as int]));
            assert(self@ =~= before.push(sv[i as int]));
        }
        proof {
            let added = self@.subrange(base.len() as int, self@.len() as int);
            assert(sv.subrange(0, sv.len() as int) =~= sv);
            assert(added =~= sv.reverse());
            assert(added.reverse() =~= sv);
            assert(self@.subrange(0, base.len() as int) =~= base);
        }
    }

    /// Ends the walk: nothing more is visited.
    pub fn stop(&mut self)
        ensures
            final(self)@.len() == 0,
    {
        self.pending.clear();
        assert(self@ =~= Seq::empty());
    }

    /// Whether paths remain to visit.
    pub fn is_done(&self) -> (r: bool)
        ensures
            r == (self@.len() == 0),
    {
        self.pending.len() == 0
    }
}

} // verus!
