//! The order of the matches: by score, then by line.
use vstd::multiset::Multiset;
use vstd::prelude::*;
use vstd::seq_lib::{lemma_multiset_commutative, to_multiset_build};

use crate::matching::{match_views, MatchIndices, MatchView};

verus! {

/// `a` may stand before `b`: its score is higher, or it is as high and its line is not a
/// later one.
pub open spec fn outranks(a: MatchView, b: MatchView) -> bool {
    a.score > b.score || (a.score == b.score && a.index <= b.index)
}

/// Each match may stand before those behind it.
pub open spec fn ranked(matches: Seq<MatchView>) -> bool {
    forall|i: int, j: int| 0 <= i < j < matches.len() ==> outranks(matches[i], matches[j])
}

/// `ordered` holds the matches of `found`, each as often, in their order.
pub open spec fn is_ranking_of(ordered: Seq<MatchView>, found: Seq<MatchView>) -> bool {
    ranked(ordered) && ordered.to_multiset() == found.to_multiset()
}

/// Of two runs with the same members, what is in the one is in the other.
pub proof fn lemma_same_members(a: Seq<MatchView>, b: Seq<MatchView>, m: MatchView)
    requires
        a.to_multiset() == b.to_multiset(),
        a.contains(m),
    ensures
        b.contains(m),
        a.len() == b.len(),
{
    a.to_multiset_ensures();
    b.to_multiset_ensures();
    assert(a.to_multiset().count(m) > 0);
    assert(b.to_multiset().count(m) > 0);
}

/// Whether `a` may stand before `b`.
fn goes_first(a: &MatchIndices, b: &MatchIndices) -> (yes: bool)
    ensures
        yes == outranks(a@, b@),
{
    a.score > b.score || (a.score == b.score && a.index <= b.index)
}

/// Every match of `front` may stand before every match of `back`.
spec fn all_before(front: Seq<MatchView>, back: Seq<MatchView>) -> bool {
    forall|i: int, j: int|
        0 <= i < front.len() && 0 <= j < back.len() ==> outranks(front[i], back[j])
}

/// Each match may stand behind those after it.
spec fn ranked_backwards(matches: Seq<MatchView>) -> bool {
    forall|i: int, j: int| 0 <= i < j < matches.len() ==> outranks(matches[j], matches[i])
}

/// No matches, no members.
proof fn lemma_none(matches: Seq<MatchView>)
    requires
        matches.len() == 0,
    ensures
        matches.to_multiset() == Multiset::<MatchView>::empty(),
{
    matches.to_multiset_ensures();
    assert(matches.to_multiset() =~= Multiset::<MatchView>::empty());
}

/// The last match of `from` can go to the end of `back`, where the last of `other` may
/// stand before it.
proof fn lemma_last_goes(from: Seq<MatchView>, other: Seq<MatchView>, back: Seq<MatchView>)
    requires
        from.len() > 0,
        ranked(from),
        ranked(other),
        ranked_backwards(back),
        all_before(from, back),
        all_before(other, back),
        other.len() > 0 ==> outranks(other.last(), from.last()),
    ensures
        ranked(from.drop_last()),
        ranked_backwards(back.push(from.last())),
        all_before(from.drop_last(), back.push(from.last())),
        all_before(other, back.push(from.last())),
{
    let more = back.push(from.last());
    assert forall|i: int, j: int| 0 <= i < other.len() && 0 <= j < more.len() implies outranks(
        other[i],
        more[j],
    ) by {
        if j < back.len() {
            assert(outranks(other[i], back[j]));
        } else {
            assert(i < other.len() - 1 ==> outranks(other[i], other[other.len() - 1]));
            assert(outranks(other.last(), from.last()));
        }
    }
    assert forall|i: int, j: int|
        0 <= i < from.drop_last().len() && 0 <= j < more.len() implies outranks(
        from.drop_last()[i],
        more[j],
    ) by {
        if j < back.len() {
            assert(outranks(from[i], back[j]));
        } else {
            assert(outranks(from[i], from[from.len() - 1]));
        }
    }
}

/// Moves the last match of `from` to the end of `to`.
fn move_last(from: &mut Vec<MatchIndices>, to: &mut Vec<MatchIndices>)
    requires
        old(from)@.len() > 0,
    ensures
        final(from)@.len() == old(from)@.len() - 1,
        match_views(final(from)@) == match_views(old(from)@).drop_last(),
        match_views(final(to)@) == match_views(old(to)@).push(match_views(old(from)@).last()),
        match_views(final(from)@).to_multiset().add(match_views(final(to)@).to_multiset())
            == match_views(old(from)@).to_multiset().add(match_views(old(to)@).to_multiset()),
{
    let ghost had = match_views(from@);
    let ghost got = match_views(to@);
    if let Some(last) = from.pop() {
        to.push(last);
    }
    proof {
        assert(match_views(from@) =~= had.drop_last());
        assert(match_views(to@) =~= got.push(had.last()));
        assert(had =~= had.drop_last().push(had.last()));
        to_multiset_build(had.drop_last(), had.last());
        to_multiset_build(got, had.last());
        assert(had.drop_last().to_multiset().add(got.push(had.last()).to_multiset())
            =~= had.to_multiset().add(got.to_multiset()));
    }
}

/// The matches in reverse.
fn reversed(matches: Vec<MatchIndices>) -> (result: Vec<MatchIndices>)
    requires
        ranked_backwards(match_views(matches@)),
    ensures
        is_ranking_of(match_views(result@), match_views(matches@)),
{
    let ghost all = match_views(matches@).to_multiset();
    let mut rest: Vec<MatchIndices> = matches;
    let mut result: Vec<MatchIndices> = Vec::new();
    proof {
        lemma_none(match_views(result@));
    }
    assert(match_views(rest@).to_multiset().add(match_views(result@).to_multiset()) =~= all);
    while rest.len() > 0
        invariant
            ranked_backwards(match_views(rest@)),
            ranked(match_views(result@)),
            all_before(match_views(result@), match_views(rest@)),
            match_views(rest@).to_multiset().add(match_views(result@).to_multiset()) == all,
        decreases rest@.len(),
    {
        proof {
            let rv = match_views(rest@);
            assert forall|i: int| 0 <= i < rv.len() - 1 implies outranks(rv.last(), rv[i]) by {
                assert(outranks(rv[rv.len() - 1], rv[i]));
            }
        }
        move_last(&mut rest, &mut result);
    }
    proof {
        lemma_none(match_views(rest@));
    }
    assert(match_views(result@).to_multiset() =~= all);
    result
}

/// Two rankings made one.
fn merged(left: Vec<MatchIndices>, right: Vec<MatchIndices>) -> (result: Vec<MatchIndices>)
    requires
        ranked(match_views(left@)),
        ranked(match_views(right@)),
    ensures
        is_ranking_of(match_views(result@), match_views(left@) + match_views(right@)),
{
    let ghost all = match_views(left@).to_multiset().add(match_views(right@).to_multiset());
    proof {
        lemma_multiset_commutative(match_views(left@), match_views(right@));
    }
    let mut l: Vec<MatchIndices> = left;
    let mut r: Vec<MatchIndices> = right;
    let mut back: Vec<MatchIndices> = Vec::new();
    proof {
        lemma_none(match_views(back@));
    }
    assert(match_views(l@).to_multiset().add(match_views(r@).to_multiset()).add(
        match_views(back@).to_multiset(),
    ) =~= all);
    while l.len() > 0 || r.len() > 0
        invariant
            ranked(match_views(l@)),
            ranked(match_views(r@)),
            ranked_backwards(match_views(back@)),
            all_before(match_views(l@), match_views(back@)),
            all_before(match_views(r@), match_views(back@)),
            match_views(l@).to_multiset().add(match_views(r@).to_multiset()).add(
                match_views(back@).to_multiset(),
            ) == all,
        decreases l@.len() + r@.len(),
    {
        let ghost lv = match_views(l@);
        let ghost rv = match_views(r@);
        let ghost bv = match_views(back@);
        let from_left: bool = r.len() == 0 || (l.len() > 0 && goes_first(
            &r[r.len() - 1],
            &l[l.len() - 1],
        ));
        if from_left {
            proof {
                lemma_last_goes(lv, rv, bv);
            }
            move_last(&mut l, &mut back);
            assert(match_views(l@).to_multiset().add(match_views(r@).to_multiset()).add(
                match_views(back@).to_multiset(),
            ) =~= match_views(l@).to_multiset().add(match_views(back@).to_multiset()).add(
                rv.to_multiset(),
            ));
            assert(lv.to_multiset().add(rv.to_multiset()).add(bv.to_multiset())
                =~= lv.to_multiset().add(bv.to_multiset()).add(rv.to_multiset()));
        } else {
            proof {
                lemma_last_goes(rv, lv, bv);
            }
            move_last(&mut r, &mut back);
            assert(match_views(l@).to_multiset().add(match_views(r@).to_multiset()).add(
                match_views(back@).to_multiset(),
            ) =~= match_views(r@).to_multiset().add(match_views(back@).to_multiset()).add(
                lv.to_multiset(),
            ));
            assert(lv.to_multiset().add(rv.to_multiset()).add(bv.to_multiset())
                =~= rv.to_multiset().add(bv.to_multiset()).add(lv.to_multiset()));
        }
    }
    proof {
        lemma_none(match_views(l@));
        lemma_none(match_views(r@));
    }
    assert(match_views(back@).to_multiset() =~= all);
    reversed(back)
}

/// Orders the matches: the highest score first, and of one score the first line first.
pub fn rank(matches: Vec<MatchIndices>) -> (result: Vec<MatchIndices>)
    ensures
        is_ranking_of(match_views(result@), match_views(matches@)),
    decreases matches@.len(),
{
    if matches.len() <= 1 {
        return matches;
    }
    let ghost all = match_views(matches@);
    let mut left: Vec<MatchIndices> = matches;
    let half: usize = left.len() / 2;
    let right: Vec<MatchIndices> = left.split_off(half);
    proof {
        assert(all =~= match_views(left@) + match_views(right@));
        lemma_multiset_commutative(match_views(left@), match_views(right@));
    }
    let l: Vec<MatchIndices> = rank(left);
    let r: Vec<MatchIndices> = rank(right);
    proof {
        lemma_multiset_commutative(match_views(l@), match_views(r@));
    }
    merged(l, r)
}

/// In a ranking a higher score comes first, and of one score the earlier line.
pub proof fn law_best_comes_first(ordered: Seq<MatchView>, found: Seq<MatchView>, i: int, j: int)
    requires
        is_ranking_of(ordered, found),
        0 <= i < j < ordered.len(),
    ensures
        ordered[i].score >= ordered[j].score,
        ordered[i].score == ordered[j].score ==> ordered[i].index <= ordered[j].index,
{
    assert(outranks(ordered[i], ordered[j]));
}

/// A ranking has each match as often as it was found.
pub proof fn law_ranking_keeps_the_matches(
    ordered: Seq<MatchView>,
    found: Seq<MatchView>,
    m: MatchView,
)
    requires
        is_ranking_of(ordered, found),
    ensures
        ordered.len() == found.len(),
        ordered.to_multiset().count(m) == found.to_multiset().count(m),
        ordered.contains(m) <==> found.contains(m),
{
    ordered.to_multiset_ensures();
    found.to_multiset_ensures();
    if ordered.contains(m) {
        lemma_same_members(ordered, found, m);
    }
    if found.contains(m) {
        lemma_same_members(found, ordered, m);
    }
}

/// Matches that stand in that order are a ranking of themselves.
pub proof fn law_ordered_matches_are_ranked(ordered: Seq<MatchView>)
    requires
        forall|i: int, j: int|
            0 <= i < j < ordered.len() ==> (#[trigger] ordered[i]).score > (
            #[trigger] ordered[j]).score || (ordered[i].score == ordered[j].score
                && ordered[i].index <= ordered[j].index),
    ensures
        is_ranking_of(ordered, ordered),
{
}

} // verus!
