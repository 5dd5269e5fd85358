//! Search: which names of a table match a query.
//!
//! A name matches a query when the query, in lowercase, occurs in the
//! lowercase stem of the name.

use crate::index::{
    distinct_names, last_write_wins, lemma_distinct_pairs_are_kept,
    lemma_mapping_holds_visited_pairs, FileIndex,
};
use crate::text::{contains, file_stem, lowered, occurs_in, stem, to_lowercase};
use vstd::prelude::*;

verus! {

/// The score that a name must reach to be a match.
pub const MINIMUM_SCORE: i16 = 20;

/// The score of a stem that holds the query.
pub const CONTAINS_SCORE: i16 = 1000;

/// The score of `filename` against `query`, both taken as they are.
pub open spec fn plain_score(filename: Seq<char>, query: Seq<char>) -> int {
    if occurs_in(query, filename) {
        CONTAINS_SCORE as int
    } else {
        0
    }
}

/// The score of `filename` against `query` without regard to case.
pub open spec fn score(filename: Seq<char>, query: Seq<char>) -> int {
    plain_score(lowered(filename), lowered(query))
}

/// Whether a score is high enough for a match.
pub open spec fn is_match(points: int) -> bool {
    points >= MINIMUM_SCORE
}

/// Whether the file name `name` matches `query`.
pub open spec fn matches(name: Seq<char>, query: Seq<char>) -> bool {
    is_match(score(stem(name), query))
}

/// The test that `search` puts to every entry of a table.
pub open spec fn matcher(query: Seq<char>) -> spec_fn((Seq<char>, Seq<char>)) -> bool {
    |pair: (Seq<char>, Seq<char>)| matches(pair.0, query)
}

/// The pairs of `entries` whose name matches `query`, in the order of
/// `entries`.
pub open spec fn matching(entries: Seq<(Seq<char>, Seq<char>)>, query: Seq<char>) -> Seq<
    (Seq<char>, Seq<char>),
> {
    entries.filter(matcher(query))
}

/// Scores `filename` against `query` as they are: 1000 where `query` occurs
/// in `filename`, else 0.
pub fn score_plain(filename: &str, query: &str) -> (points: i16)
    ensures
        points == plain_score(filename@, query@),
{
    if contains(filename, query) {
        CONTAINS_SCORE
    } else {
        0
    }
}

/// Scores `filename` against `query` without regard to case: 1000 where the
/// lowercase query occurs in the lowercase file name, else 0.
pub fn score_filename(filename: &str, query: &str) -> (points: i16)
    ensures
        points == score(filename@, query@),
{
    let folded_name = to_lowercase(filename);
    let folded_query = to_lowercase(query);
    score_plain(folded_name.as_str(), folded_query.as_str())
}

/// Whether `points` reaches the minimum score.
pub fn meets_minimum(points: i16) -> (enough: bool)
    ensures
        enough == is_match(points as int),
{
    points >= MINIMUM_SCORE
}

/// The entries of `index` whose name matches `query`, each with its name as
/// it is in the table and its path.
///
/// The results come in the order of the table's entries. In terms of the
/// mapping: a pair is among the results exactly when the table maps its name
/// to its path and the name matches, and no name comes twice.
pub fn search(query: &str, index: &FileIndex) -> (results: Vec<(String, String)>)
    ensures
        results.deep_view() == matching(index.entries(), query@),
        distinct_names(results.deep_view()),
        forall|name: Seq<char>, path: Seq<char>|
            #![trigger results.deep_view().contains((name, path))]
            results.deep_view().contains((name, path)) <==> index@.contains_key(name) && index@[name]
                == path && matches(name, query@),
{
    let listing = index.pairs();
    let ghost entries = index.entries();
    let mut results: Vec<(String, String)> = Vec::new();
    let mut i: usize = 0;
    proof {
        assert(entries.take(0) =~= Seq::empty());
        reveal(Seq::filter);
        assert(results.deep_view() =~= matching(entries.take(0), query@));
    }
    while i < listing.len()
        invariant
            i <= listing.len(),
            listing.deep_view() == entries,
            results.deep_view() == matching(entries.take(i as int), query@),
        decreases listing.len() - i,
    {
        let name = &listing[i].0;
        let path = &listing[i].1;
        let ghost before = results.deep_view();
        proof {
            assert(entries[i as int] == (name@, path@));
            assert(entries.take(i + 1) =~= entries.take(i as int).push(entries[i as int]));
            entries.take(i as int).lemma_filter_push(entries[i as int], matcher(query@));
        }
        let points = score_filename(file_stem(name.as_str()), query);
        if meets_minimum(points) {
            results.push((name.clone(), path.clone()));
            assert(results.deep_view() =~= before.push((name@, path@)));
        }
        i += 1;
    }
    proof {
        assert(entries.take(i as int) =~= entries);
        lemma_matching_of_listing(entries, query@);
    }
    results
}

/// What `matching` picks from a listing without repeated names, in terms of
/// the mapping that the listing stands for.
pub proof fn lemma_matching_of_listing(entries: Seq<(Seq<char>, Seq<char>)>, query: Seq<char>)
    requires
        distinct_names(entries),
    ensures
        distinct_names(matching(entries, query)),
        forall|name: Seq<char>, path: Seq<char>|
            #![trigger matching(entries, query).contains((name, path))]
            matching(entries, query).contains((name, path)) <==> last_write_wins(
                entries,
            ).contains_key(name) && last_write_wins(entries)[name] == path && matches(name, query),
    decreases entries.len(),
{
    reveal(Seq::filter);
    let picked = matching(entries, query);
    if entries.len() == 0 {
        assert forall|name: Seq<char>, path: Seq<char>|
            #![trigger picked.contains((name, path))]
            !picked.contains((name, path)) && !last_write_wins(entries).contains_key(name) by {}
    } else {
        let front = entries.drop_last();
        let last = entries.last();
        lemma_matching_of_listing(front, query);
        let front_picked = matching(front, query);
        assert(entries =~= front.push(last));
        front.lemma_filter_push(last, matcher(query));
        assert forall|i: int| 0 <= i < front_picked.len() implies (#[trigger] front_picked[i]).0
            != last.0 by {
            let pair = front_picked[i];
            assert(front_picked.contains(pair));
            assert(front_picked.contains((pair.0, pair.1)));
            lemma_mapping_holds_visited_pairs(front, pair.0);
            let k = choose|k: int| 0 <= k < front.len() && front[k] == (pair.0, pair.1);
            assert(entries[k].0 != entries[entries.len() - 1].0);
        }
        assert forall|name: Seq<char>, path: Seq<char>|
            #![trigger picked.contains((name, path))]
            picked.contains((name, path)) <==> last_write_wins(entries).contains_key(name)
                && last_write_wins(entries)[name] == path && matches(name, query) by {
            if picked.contains((name, path)) {
                let i = choose|i: int| 0 <= i < picked.len() && picked[i] == (name, path);
                if i < front_picked.len() {
                    assert(front_picked.contains((name, path)));
                    lemma_mapping_holds_visited_pairs(front, name);
                    let k = choose|k: int| 0 <= k < front.len() && front[k] == (name, path);
                    assert(entries[k] == (name, path));
                    lemma_distinct_pairs_are_kept(entries, k);
                } else {
                    lemma_distinct_pairs_are_kept(entries, entries.len() - 1);
                }
            }
            if last_write_wins(entries).contains_key(name) && last_write_wins(entries)[name] == path
                && matches(name, query) {
                lemma_mapping_holds_visited_pairs(entries, name);
                let k = choose|k: int| 0 <= k < entries.len() && entries[k] == (name, path);
                if k < front.len() {
                    assert(front[k] == (name, path));
                    lemma_distinct_pairs_are_kept(front, k);
                    assert(front_picked.contains((name, path)));
                    let i = choose|i: int|
                        0 <= i < front_picked.len() && front_picked[i] == (name, path);
                    assert(picked[i] == (name, path));
                } else {
                    assert(matcher(query)(last));
                    assert(picked[picked.len() - 1] == (name, path));
                }
            }
        }
    }
}

/// Case does not matter in the query: two queries with one lowercase form
/// pick the same entries.
pub proof fn lemma_query_case_is_ignored(
    entries: Seq<(Seq<char>, Seq<char>)>,
    first: Seq<char>,
    second: Seq<char>,
)
    requires
        lowered(first) == lowered(second),
    ensures
        matching(entries, first) == matching(entries, second),
{
    assert(matcher(first) =~= matcher(second));
}

/// Case does not matter in the name: two names whose stems have one
/// lowercase form match the same queries.
pub proof fn lemma_name_case_is_ignored(first: Seq<char>, second: Seq<char>, query: Seq<char>)
    requires
        lowered(stem(first)) == lowered(stem(second)),
    ensures
        matches(first, query) == matches(second, query),
{
}

/// A query finds a name whatever the case of either: where two queries and
/// the stem of a name all have one lowercase form, both queries pick the
/// same entries, and the entry with that name is among them.
pub proof fn lemma_query_in_any_case_finds_name(
    entries: Seq<(Seq<char>, Seq<char>)>,
    first: Seq<char>,
    second: Seq<char>,
    i: int,
)
    requires
        0 <= i < entries.len(),
        lowered(first) == lowered(second),
        lowered(first) == lowered(stem(entries[i].0)),
    ensures
        matching(entries, first) == matching(entries, second),
        matching(entries, first).contains(entries[i]),
{
    lemma_query_case_is_ignored(entries, first, second);
    let text = lowered(stem(entries[i].0));
    assert(text.subrange(0, 0 + text.len() as int) =~= text);
    assert(occurs_in(lowered(first), text));
    assert(matcher(first)(entries[i]));
    entries.lemma_filter_contains(matcher(first), i);
}

/// The empty query matches every name: it picks every entry.
pub proof fn lemma_empty_query_matches_all(entries: Seq<(Seq<char>, Seq<char>)>)
    ensures
        forall|name: Seq<char>| matches(name, Seq::<char>::empty()),
        matching(entries, Seq::<char>::empty()) == entries,
    decreases entries.len(),
{
    let nothing = Seq::<char>::empty();
    assert forall|name: Seq<char>| matches(name, nothing) by {
        let text = lowered(stem(name));
        let needle = lowered(nothing);
        assert(text.subrange(0, 0 + needle.len() as int) =~= needle);
        assert(occurs_in(needle, text));
    }
    reveal(Seq::filter);
    if entries.len() > 0 {
        let front = entries.drop_last();
        lemma_empty_query_matches_all(front);
        assert(entries =~= front.push(entries.last()));
        front.lemma_filter_push(entries.last(), matcher(nothing));
        assert(matcher(nothing)(entries.last()));
    }
}

} // verus!
