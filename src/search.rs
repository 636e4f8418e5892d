use vstd::prelude::*;

use fuzzy_matcher::skim::SkimMatcherV2;
use fuzzy_matcher::FuzzyMatcher;

use crate::models::{index_view, IndexedCard, IndexedCardModel};

verus! {

/// The skim matcher's score of a pattern within a text, or none where it does not match.
pub uninterp spec fn skim_score(choice: Seq<char>, pattern: Seq<char>) -> Option<i64>;

/// Relies on fuzzy_matcher's `SkimMatcherV2::fuzzy_match` with the default settings: the
/// score depends on the two texts alone.
#[verifier::external_body]
fn skim_match(choice: &str, pattern: &str) -> (r: Option<i64>)
    ensures
        r == skim_score(choice@, pattern@),
{
    SkimMatcherV2::default().fuzzy_match(choice, pattern)
}

/// Entry `a` ranks before entry `b`: a higher score, or an equal score and an earlier place.
pub open spec fn ranks_before(scores: Seq<Option<i64>>, a: int, b: int) -> bool {
    scores[a]->Some_0 > scores[b]->Some_0 || (scores[a]->Some_0 == scores[b]->Some_0 && a < b)
}

/// `idx` lists the places of the best-ranked matching entries: at most `top` of them,
/// best first, and every matching entry left out ranks after all of those listed, which
/// are then `top` in number. Entries without a score are left out.
pub open spec fn is_top_ranking(scores: Seq<Option<i64>>, top: int, idx: Seq<usize>) -> bool {
    &&& idx.len() <= top
    &&& forall|k: int| 0 <= k < idx.len() ==> (#[trigger] idx[k]) < scores.len() && scores[idx[k] as int] is Some
    &&& forall|k: int, l: int|
        0 <= k < l < idx.len() ==> ranks_before(scores, #[trigger] idx[k] as int, #[trigger] idx[l] as int)
    &&& forall|i: int|
        0 <= i < scores.len() && (#[trigger] scores[i]) is Some && !idx.contains(i as usize) ==> idx.len()
            == top && forall|k: int| 0 <= k < idx.len() ==> ranks_before(scores, #[trigger] idx[k] as int, i)
}

/// The places of the best-ranked scored entries, best first, at most `top` of them.
pub fn top_positions(scores: &Vec<Option<i64>>, top: usize) -> (r: Vec<usize>)
    ensures
        is_top_ranking(scores@, top as int, r@),
{
    let n = scores.len();
    let mut taken: Vec<bool> = Vec::new();
    let mut t: usize = 0;
    while t < n
        invariant
            t <= n == scores@.len(),
            taken@.len() == t,
            forall|i: int| 0 <= i < t ==> !(#[trigger] taken@[i]),
        decreases n - t,
    {
        taken.push(false);
        t += 1;
    }
    let mut idx: Vec<usize> = Vec::new();
    let mut done = false;
    while !done && idx.len() < top
        invariant
            n == scores@.len() == taken@.len(),
            idx@.len() <= top,
            forall|i: int| 0 <= i < n ==> (#[trigger] taken@[i]) == idx@.contains(i as usize),
            forall|k: int| 0 <= k < idx@.len() ==> (#[trigger] idx@[k]) < n && scores@[idx@[k] as int] is Some,
            forall|k: int, l: int|
                0 <= k < l < idx@.len() ==> ranks_before(scores@, #[trigger] idx@[k] as int, #[trigger] idx@[l] as int),
            forall|i: int|
                0 <= i < n && (#[trigger] scores@[i]) is Some && !taken@[i] ==> forall|k: int|
                    0 <= k < idx@.len() ==> ranks_before(scores@, #[trigger] idx@[k] as int, i),
            done ==> forall|i: int| 0 <= i < n && (#[trigger] scores@[i]) is Some ==> taken@[i],
        decreases top - idx@.len(), (if done { 0int } else { 1int }),
    {
        let mut best: Option<usize> = None;
        let mut i: usize = 0;
        while i < n
            invariant
                i <= n == scores@.len() == taken@.len(),
                best matches Some(b) ==> b < i && b < n && scores@[b as int] is Some && !taken@[b as int],
                best matches Some(b) ==> forall|j: int|
                    0 <= j < i && (#[trigger] scores@[j]) is Some && !taken@[j] ==> j == b
                        || ranks_before(scores@, b as int, j),
                best is None ==> forall|j: int| 0 <= j < i && (#[trigger] scores@[j]) is Some ==> taken@[j],
            decreases n - i,
        {
            let ghost pb = best;
            match scores[i] {
                Some(si) => {
                    if !taken[i] {
                        match best {
                            None => {
                                best = Some(i);
                            },
                            Some(b) => {
                                let sb = scores[b].unwrap();
                                if si > sb {
                                    best = Some(i);
                                }
                            },
                        }
                    }
                },
                None => {},
            }
            proof {
                if best is Some && pb is Some && best != pb {
                    let b = best->Some_0;
                    let ob = pb->Some_0;
                    assert forall|j: int|
                        0 <= j < i + 1 && (#[trigger] scores@[j]) is Some && !taken@[j] implies j == b
                            || ranks_before(scores@, b as int, j) by {
                        if j < i && j != ob {
                            assert(ranks_before(scores@, ob as int, j));
                        }
                    }
                }
            }
            i += 1;
        }
        match best {
            None => {
                done = true;
            },
            Some(b) => {
                let ghost before = idx@;
                idx.push(b);
                taken.set(b, true);
                proof {
                    assert forall|j: int| 0 <= j < n implies (#[trigger] taken@[j]) == idx@.contains(j as usize) by {
                        if j != b {
                            if idx@.contains(j as usize) {
                                let k = choose|k: int| 0 <= k < idx@.len() && idx@[k] == j as usize;
                                assert(before[k] == j as usize);
                            }
                            if before.contains(j as usize) {
                                let k = choose|k: int| 0 <= k < before.len() && before[k] == j as usize;
                                assert(idx@[k] == j as usize);
                            }
                        } else {
                            assert(idx@[idx@.len() - 1] == b);
                        }
                    }
                    assert forall|k: int, l: int|
                        0 <= k < l < idx@.len() implies ranks_before(scores@, #[trigger] idx@[k] as int, #[trigger] idx@[l] as int) by {
                        if l < before.len() {
                            assert(idx@[k] == before[k] && idx@[l] == before[l]);
                        } else {
                            assert(idx@[k] == before[k]);
                            assert(ranks_before(scores@, before[k] as int, b as int));
                        }
                    }
                    assert forall|j: int|
                        0 <= j < n && (#[trigger] scores@[j]) is Some && !taken@[j] implies forall|k: int|
                            0 <= k < idx@.len() ==> ranks_before(scores@, #[trigger] idx@[k] as int, j) by {
                        assert forall|k: int| 0 <= k < idx@.len() implies ranks_before(scores@, #[trigger] idx@[k] as int, j) by {
                            if k < before.len() {
                                assert(idx@[k] == before[k]);
                            }
                        }
                    }
                }
            },
        }
    }
    idx
}

/// The entries at the places of the best-ranked scored entries, best first.
pub fn rank_top_n(cards: &Vec<IndexedCard>, scores: &Vec<Option<i64>>, top: usize) -> (r: Vec<
    IndexedCard,
>)
    requires
        scores@.len() == cards@.len(),
    ensures
        exists|idx: Seq<usize>|
            is_top_ranking(scores@, top as int, idx) && index_view(r@) == idx.map_values(
                |p: usize| index_view(cards@)[p as int],
            ),
{
    let idx = top_positions(scores, top);
    let mut r: Vec<IndexedCard> = Vec::new();
    let mut k: usize = 0;
    while k < idx.len()
        invariant
            k <= idx@.len(),
            is_top_ranking(scores@, top as int, idx@),
            scores@.len() == cards@.len(),
            r@.len() == k,
            forall|j: int| 0 <= j < k ==> (#[trigger] r@[j])@ == cards@[idx@[j] as int]@,
        decreases idx@.len() - k,
    {
        let p = idx[k];
        r.push(cards[p].duplicate());
        k += 1;
    }
    assert(index_view(r@) =~= idx@.map_values(|p: usize| index_view(cards@)[p as int]));
    r
}

/// The matcher's score of each entry's name against the query.
pub open spec fn search_scores(cards: Seq<IndexedCardModel>, query: Seq<char>) -> Seq<Option<i64>> {
    cards.map_values(|c: IndexedCardModel| skim_score(c.name, query))
}

/// The index entries that best match the query by name, best first, at most `top` of
/// them; entries that do not match at all are left out.
pub fn fuzzy_top_n(query: &str, cards: &Vec<IndexedCard>, top: usize) -> (r: Vec<IndexedCard>)
    ensures
        exists|idx: Seq<usize>|
            is_top_ranking(search_scores(index_view(cards@), query@), top as int, idx) && index_view(r@)
                == idx.map_values(|p: usize| index_view(cards@)[p as int]),
{
    let mut scores: Vec<Option<i64>> = Vec::new();
    let mut i: usize = 0;
    while i < cards.len()
        invariant
            i <= cards@.len(),
            scores@.len() == i,
            forall|k: int| 0 <= k < i ==> (#[trigger] scores@[k]) == skim_score(cards@[k].name@, query@),
        decreases cards@.len() - i,
    {
        scores.push(skim_match(cards[i].name.as_str(), query));
        i += 1;
    }
    assert(scores@ =~= search_scores(index_view(cards@), query@));
    rank_top_n(cards, &scores, top)
}

/// A search gives at most `top` entries, each taken from the index, with scores that
/// never rise from one to the next.
pub proof fn lemma_search_bounded_and_sorted(scores: Seq<Option<i64>>, top: int, idx: Seq<usize>)
    requires
        is_top_ranking(scores, top, idx),
    ensures
        idx.len() <= top,
        forall|k: int| 0 <= k < idx.len() ==> (#[trigger] idx[k]) < scores.len(),
        forall|k: int, l: int|
            0 <= k < l < idx.len() ==> (#[trigger] scores[idx[k] as int])->Some_0 >= (#[trigger] scores[idx[l] as int])->Some_0,
{
    assert forall|k: int, l: int| 0 <= k < l < idx.len() implies (#[trigger] scores[idx[k] as int])->Some_0
        >= (#[trigger] scores[idx[l] as int])->Some_0 by {
        assert(ranks_before(scores, idx[k] as int, idx[l] as int));
    }
}

} // verus!
