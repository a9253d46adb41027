//! Substring search on the UTF-8 bytes of a text.
use vstd::prelude::*;

verus! {

/// `pat` stands in `hay` at byte offset `at`.
pub open spec fn occurs_at(hay: Seq<u8>, pat: Seq<u8>, at: int) -> bool {
    0 <= at && at + pat.len() <= hay.len() && hay.subrange(at, at + pat.len()) == pat
}

/// `pat` stands somewhere in `hay`.
pub open spec fn contains(hay: Seq<u8>, pat: Seq<u8>) -> bool {
    exists|at: int| occurs_at(hay, pat, at)
}

/// `at` is the first offset from `from` on at which `pat` stands in `hay`.
pub open spec fn first_from(hay: Seq<u8>, pat: Seq<u8>, from: int, at: int) -> bool {
    &&& from <= at
    &&& occurs_at(hay, pat, at)
    &&& forall|before: int| from <= before < at ==> !#[trigger] occurs_at(hay, pat, before)
}

/// The offsets, from `from` on, at which `pat` is found in `hay` from left to right,
/// where each search goes on behind the end of the hit before it. An empty `pat` is
/// found once.
pub open spec fn hits(hay: Seq<u8>, pat: Seq<u8>, from: int) -> Seq<int>
    decreases hay.len() - from,
{
    if exists|at: int| first_from(hay, pat, from, at) {
        let at = choose|at: int| first_from(hay, pat, from, at);
        if pat.len() == 0 || from < 0 {
            seq![at]
        } else {
            seq![at] + hits(hay, pat, at + pat.len())
        }
    } else {
        seq![]
    }
}

/// There is one first offset.
pub proof fn lemma_first_unique(hay: Seq<u8>, pat: Seq<u8>, from: int, a: int, b: int)
    requires
        first_from(hay, pat, from, a),
        first_from(hay, pat, from, b),
    ensures
        a == b,
{
}

/// `hits` starts with the first offset.
pub proof fn lemma_hits_step(hay: Seq<u8>, pat: Seq<u8>, from: int, at: int)
    requires
        0 <= from,
        first_from(hay, pat, from, at),
    ensures
        hits(hay, pat, from) == if pat.len() == 0 {
            seq![at]
        } else {
            seq![at] + hits(hay, pat, at + pat.len())
        },
{
    let chosen = choose|at: int| first_from(hay, pat, from, at);
    lemma_first_unique(hay, pat, from, at, chosen);
}

/// Whether `pat` stands in `hay` at `at`.
fn stands_at(hay: &[u8], pat: &[u8], at: usize) -> (yes: bool)
    requires
        at + pat@.len() <= hay@.len(),
    ensures
        yes == occurs_at(hay@, pat@, at as int),
{
    let width: usize = hay.len();
    let mut k: usize = 0;
    while k < pat.len()
        invariant
            k <= pat@.len(),
            at + pat@.len() <= hay@.len() == width,
            forall|j: int| 0 <= j < k ==> hay@[at + j] == #[trigger] pat@[j],
        decreases pat@.len() - k,
    {
        if hay[at + k] != pat[k] {
            assert(hay@.subrange(at as int, at + pat@.len())[k as int] != pat@[k as int]);
            return false;
        }
        k += 1;
    }
    assert(hay@.subrange(at as int, at + pat@.len()) =~= pat@);
    true
}

/// The first offset from `from` on at which `pat` stands in `hay`.
pub fn find_from(hay: &[u8], pat: &[u8], from: usize) -> (found: Option<usize>)
    ensures
        match found {
            Some(at) => first_from(hay@, pat@, from as int, at as int),
            None => forall|at: int| from <= at ==> !#[trigger] occurs_at(hay@, pat@, at),
        },
{
    if pat.len() > hay.len() {
        return None;
    }
    let last: usize = hay.len() - pat.len();
    let mut at: usize = from;
    while at <= last
        invariant
            from <= at,
            last == hay@.len() - pat@.len(),
            forall|before: int| from <= before < at ==> !#[trigger] occurs_at(
                hay@,
                pat@,
                before,
            ),
        decreases last + 1 - at,
    {
        if stands_at(hay, pat, at) {
            return Some(at);
        }
        if at == last {
            return None;
        }
        at += 1;
    }
    None
}

/// Whether `pat` stands somewhere in `hay`.
pub fn is_in(hay: &[u8], pat: &[u8]) -> (yes: bool)
    ensures
        yes == contains(hay@, pat@),
{
    match find_from(hay, pat, 0) {
        Some(at) => {
            assert(occurs_at(hay@, pat@, at as int));
            true
        },
        None => false,
    }
}

/// The hits from `from` on lie behind it, one behind the end of the other, and `pat`
/// stands at each. There is a hit where `pat` stands anywhere from `from` on.
pub proof fn law_hits_stand_apart(hay: Seq<u8>, pat: Seq<u8>, from: int)
    requires
        0 <= from,
    ensures
        forall|k: int|
            0 <= k < hits(hay, pat, from).len() ==> from <= #[trigger] hits(hay, pat, from)[k]
                && occurs_at(hay, pat, hits(hay, pat, from)[k]),
        forall|j: int, k: int|
            0 <= j < k < hits(hay, pat, from).len() ==> #[trigger] hits(hay, pat, from)[j]
                + pat.len() <= #[trigger] hits(hay, pat, from)[k],
        hits(hay, pat, from).len() > 0 <==> exists|at: int|
            from <= at && #[trigger] occurs_at(hay, pat, at),
    decreases hay.len() - from,
{
    if exists|at: int| first_from(hay, pat, from, at) {
        let at = choose|at: int| first_from(hay, pat, from, at);
        lemma_hits_step(hay, pat, from, at);
        let all = hits(hay, pat, from);
        assert(occurs_at(hay, pat, at));
        if pat.len() > 0 {
            law_hits_stand_apart(hay, pat, at + pat.len());
            let rest = hits(hay, pat, at + pat.len());
            assert forall|k: int| 0 <= k < all.len() implies from <= #[trigger] all[k]
                && occurs_at(hay, pat, all[k]) by {
                if k > 0 {
                    assert(all[k] == rest[k - 1]);
                }
            }
            assert forall|j: int, k: int| 0 <= j < k < all.len() implies #[trigger] all[j]
                + pat.len() <= #[trigger] all[k] by {
                assert(all[k] == rest[k - 1]);
                if j > 0 {
                    assert(all[j] == rest[j - 1]);
                }
            }
        }
    } else {
        if exists|at: int| from <= at && #[trigger] occurs_at(hay, pat, at) {
            let at = choose|at: int| from <= at && #[trigger] occurs_at(hay, pat, at);
            lemma_first_exists(hay, pat, from, at);
        }
    }
}

/// Where `pat` stands from `from` on, there is a first place at which it does.
proof fn lemma_first_exists(hay: Seq<u8>, pat: Seq<u8>, from: int, at: int)
    requires
        from <= at,
        occurs_at(hay, pat, at),
    ensures
        exists|first: int| first_from(hay, pat, from, first),
    decreases at - from,
{
    if exists|before: int| from <= before < at && #[trigger] occurs_at(hay, pat, before) {
        let before = choose|before: int|
            from <= before < at && #[trigger] occurs_at(hay, pat, before);
        lemma_first_exists(hay, pat, from, before);
    } else {
        assert(first_from(hay, pat, from, at));
    }
}

/// No place is passed over: wherever `pat` stands, a hit starts there or reaches over its
/// first byte.
pub proof fn law_every_place_is_in_a_hit(hay: Seq<u8>, pat: Seq<u8>, from: int, at: int)
    requires
        0 <= from <= at,
        pat.len() > 0,
        occurs_at(hay, pat, at),
    ensures
        exists|k: int|
            0 <= k < hits(hay, pat, from).len() && #[trigger] hits(hay, pat, from)[k] <= at < hits(
                hay,
                pat,
                from,
            )[k] + pat.len(),
    decreases hay.len() - from,
{
    lemma_first_exists(hay, pat, from, at);
    let first = choose|first: int| first_from(hay, pat, from, first);
    lemma_hits_step(hay, pat, from, first);
    let all = hits(hay, pat, from);
    assert(all[0] == first);
    if at >= first + pat.len() {
        law_every_place_is_in_a_hit(hay, pat, first + pat.len(), at);
        let rest = hits(hay, pat, first + pat.len());
        let k = choose|k: int|
            0 <= k < rest.len() && #[trigger] rest[k] <= at < rest[k] + pat.len();
        assert(all[k + 1] == rest[k]);
    }
}

/// What is empty is found once, where the search starts.
pub proof fn law_the_empty_text_is_found_once(hay: Seq<u8>, from: int)
    requires
        0 <= from <= hay.len(),
    ensures
        hits(hay, seq![], from) == seq![from],
{
    let none = Seq::<u8>::empty();
    assert(hay.subrange(from, from) =~= none);
    assert(occurs_at(hay, none, from));
    assert(first_from(hay, none, from, from));
    lemma_hits_step(hay, none, from, from);
}

/// `pat` stands at `at` where `hay` goes on with it from there, and it stands somewhere where
/// it parts `hay` into what is before it and what is behind it.
pub proof fn law_what_stands_parts_the_text(hay: Seq<u8>, pat: Seq<u8>)
    ensures
        forall|at: int| #[trigger]
            occurs_at(hay, pat, at) <==> 0 <= at <= hay.len() && pat.is_prefix_of(hay.skip(at)),
        contains(hay, pat) <==> exists|before: Seq<u8>, behind: Seq<u8>|
            hay == #[trigger] (before + pat + behind),
{
    assert forall|at: int| #[trigger]
        occurs_at(hay, pat, at) <==> 0 <= at <= hay.len() && pat.is_prefix_of(hay.skip(at)) by {
        if 0 <= at && at + pat.len() <= hay.len() {
            assert(hay.skip(at).subrange(0, pat.len() as int) =~= hay.subrange(
                at,
                at + pat.len(),
            ));
        }
    }
    if contains(hay, pat) {
        let at = choose|at: int| occurs_at(hay, pat, at);
        assert(hay.subrange(at, at + pat.len()) == pat);
        assert(hay =~= hay.take(at) + pat + hay.skip(at + pat.len()));
    }
    if exists|before: Seq<u8>, behind: Seq<u8>| hay == #[trigger] (before + pat + behind) {
        let (before, behind) = choose|before: Seq<u8>, behind: Seq<u8>|
            hay == #[trigger] (before + pat + behind);
        let at = before.len() as int;
        assert(hay.subrange(at, at + pat.len()) =~= pat);
        assert(occurs_at(hay, pat, at));
    }
}

/// A search that starts where `pat` stands ends there. One that starts before that ends
/// where the search from the next place on does, unless `pat` stands where it starts.
pub proof fn law_search_ends_at_the_first_place(hay: Seq<u8>, pat: Seq<u8>, from: int, at: int)
    requires
        0 <= from <= at,
        occurs_at(hay, pat, at),
    ensures
        first_from(hay, pat, at, at),
        from < at ==> (first_from(hay, pat, from, at) <==> first_from(hay, pat, from + 1, at)
            && !occurs_at(hay, pat, from)),
{
}

} // verus!
