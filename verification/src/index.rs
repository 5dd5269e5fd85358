//! The lookup table: a mapping from a name to one path.
//!
//! A table is filled by visiting (name, path) pairs in some order. A name
//! that is visited more than once keeps the path that was visited last.

use vstd::hash_map::StringHashMap;
use vstd::prelude::*;

verus! {

/// Whether some pair of `pairs` carries `name`.
pub open spec fn has_name(pairs: Seq<(Seq<char>, Seq<char>)>, name: Seq<char>) -> bool {
    exists|i: int| 0 <= i < pairs.len() && (#[trigger] pairs[i]).0 == name
}

/// Whether `i` is the position of the last pair of `pairs` that carries `name`.
pub open spec fn is_last(pairs: Seq<(Seq<char>, Seq<char>)>, name: Seq<char>, i: int) -> bool {
    &&& 0 <= i < pairs.len()
    &&& pairs[i].0 == name
    &&& forall|j: int| i < j < pairs.len() ==> (#[trigger] pairs[j]).0 != name
}

/// The position of the last pair of `pairs` that carries `name`.
pub open spec fn last_position(pairs: Seq<(Seq<char>, Seq<char>)>, name: Seq<char>) -> int {
    choose|i: int| is_last(pairs, name, i)
}

/// The mapping that visiting `pairs` in order leaves behind: every visited
/// name is a key, and it maps to the path of the last pair that carries it.
pub open spec fn last_write_wins(pairs: Seq<(Seq<char>, Seq<char>)>) -> Map<
    Seq<char>,
    Seq<char>,
> {
    Map::new(
        |name: Seq<char>| has_name(pairs, name),
        |name: Seq<char>| pairs[last_position(pairs, name)].1,
    )
}

/// Whether no two pairs of `pairs` carry the same name.
pub open spec fn distinct_names(pairs: Seq<(Seq<char>, Seq<char>)>) -> bool {
    forall|i: int, j: int|
        0 <= i < j < pairs.len() ==> (#[trigger] pairs[i]).0 != (#[trigger] pairs[j]).0
}

/// The position of a pair of `entries` that carries `name`.
pub open spec fn position(entries: Seq<(Seq<char>, Seq<char>)>, name: Seq<char>) -> int {
    choose|i: int| 0 <= i < entries.len() && (#[trigger] entries[i]).0 == name
}

/// The listing `entries` after `name` was entered with `path`: where the
/// listing holds the name, its path is replaced in place; where it does not,
/// the pair comes last.
pub open spec fn entered(
    entries: Seq<(Seq<char>, Seq<char>)>,
    name: Seq<char>,
    path: Seq<char>,
) -> Seq<(Seq<char>, Seq<char>)> {
    if has_name(entries, name) {
        entries.update(position(entries, name), (name, path))
    } else {
        entries.push((name, path))
    }
}

/// The listing `entries` after every pair of `pairs` was entered, in order.
pub open spec fn entered_all(
    entries: Seq<(Seq<char>, Seq<char>)>,
    pairs: Seq<(Seq<char>, Seq<char>)>,
) -> Seq<(Seq<char>, Seq<char>)>
    decreases pairs.len(),
{
    if pairs.len() == 0 {
        entries
    } else {
        entered(entered_all(entries, pairs.drop_last()), pairs.last().0, pairs.last().1)
    }
}

/// Entering two runs of pairs one after the other is entering them as one.
pub proof fn lemma_entered_in_two_steps(
    entries: Seq<(Seq<char>, Seq<char>)>,
    first: Seq<(Seq<char>, Seq<char>)>,
    second: Seq<(Seq<char>, Seq<char>)>,
)
    ensures
        entered_all(entries, first + second) == entered_all(entered_all(entries, first), second),
    decreases second.len(),
{
    if second.len() == 0 {
        assert(first + second =~= first);
    } else {
        lemma_entered_in_two_steps(entries, first, second.drop_last());
        assert((first + second).drop_last() =~= first + second.drop_last());
    }
}

/// Every name that occurs in `pairs` has a last occurrence.
pub proof fn lemma_last_position(pairs: Seq<(Seq<char>, Seq<char>)>, name: Seq<char>)
    requires
        has_name(pairs, name),
    ensures
        is_last(pairs, name, last_position(pairs, name)),
    decreases pairs.len(),
{
    let front = pairs.drop_last();
    if pairs.last().0 == name {
        assert(is_last(pairs, name, pairs.len() - 1));
    } else {
        let i = choose|i: int| 0 <= i < pairs.len() && (#[trigger] pairs[i]).0 == name;
        assert(front[i].0 == name);
        lemma_last_position(front, name);
        let k = last_position(front, name);
        assert forall|j: int| k < j < pairs.len() implies (#[trigger] pairs[j]).0 != name by {
            if j < front.len() {
                assert(front[j].0 != name);
            }
        }
        assert(is_last(pairs, name, k));
    }
}

/// The last occurrence of a name is unique.
pub proof fn lemma_last_is_unique(
    pairs: Seq<(Seq<char>, Seq<char>)>,
    name: Seq<char>,
    i: int,
)
    requires
        is_last(pairs, name, i),
    ensures
        last_position(pairs, name) == i,
{
    let k = last_position(pairs, name);
    assert(is_last(pairs, name, k));
    if k < i {
        assert(pairs[i].0 != name);
    } else if i < k {
        assert(pairs[k].0 != name);
    }
}

/// Visiting one more pair is an insertion into the mapping.
pub proof fn lemma_visit_one_more(
    pairs: Seq<(Seq<char>, Seq<char>)>,
    name: Seq<char>,
    path: Seq<char>,
)
    ensures
        last_write_wins(pairs.push((name, path))) == last_write_wins(pairs).insert(name, path),
{
    let more = pairs.push((name, path));
    let left = last_write_wins(more);
    let right = last_write_wins(pairs).insert(name, path);
    assert forall|n: Seq<char>| left.contains_key(n) <==> right.contains_key(n) by {
        if has_name(more, n) {
            let i = choose|i: int| 0 <= i < more.len() && (#[trigger] more[i]).0 == n;
            if i < pairs.len() {
                assert(pairs[i].0 == n);
            }
        }
        if has_name(pairs, n) {
            let i = choose|i: int| 0 <= i < pairs.len() && (#[trigger] pairs[i]).0 == n;
            assert(more[i].0 == n);
        }
        if n == name {
            assert(more[pairs.len() as int].0 == n);
        }
    }
    assert forall|n: Seq<char>| left.contains_key(n) implies left[n] == right[n] by {
        if n == name {
            assert(is_last(more, n, pairs.len() as int));
            lemma_last_is_unique(more, n, pairs.len() as int);
        } else {
            assert(has_name(pairs, n));
            lemma_last_position(pairs, n);
            let k = last_position(pairs, n);
            assert forall|j: int| k < j < more.len() implies (#[trigger] more[j]).0 != n by {
                if j < pairs.len() {
                    assert(pairs[j].0 != n);
                }
            }
            assert(more[k] == pairs[k]);
            assert(is_last(more, n, k));
            lemma_last_is_unique(more, n, k);
        }
    }
    assert(left =~= right);
}

/// Replacing the path of the one pair that carries a name is an insertion
/// into the mapping, and leaves the names distinct.
pub proof fn lemma_replace_path(
    pairs: Seq<(Seq<char>, Seq<char>)>,
    at: int,
    path: Seq<char>,
)
    requires
        distinct_names(pairs),
        0 <= at < pairs.len(),
    ensures
        distinct_names(pairs.update(at, (pairs[at].0, path))),
        last_write_wins(pairs.update(at, (pairs[at].0, path))) == last_write_wins(pairs).insert(
            pairs[at].0,
            path,
        ),
{
    let name = pairs[at].0;
    let changed = pairs.update(at, (name, path));
    let left = last_write_wins(changed);
    let right = last_write_wins(pairs).insert(name, path);
    assert forall|i: int| 0 <= i < pairs.len() implies (#[trigger] changed[i]).0 == pairs[i].0 by {}
    assert forall|n: Seq<char>| left.contains_key(n) <==> right.contains_key(n) by {
        if has_name(changed, n) {
            let i = choose|i: int| 0 <= i < changed.len() && (#[trigger] changed[i]).0 == n;
            assert(pairs[i].0 == n);
        }
        if has_name(pairs, n) {
            let i = choose|i: int| 0 <= i < pairs.len() && (#[trigger] pairs[i]).0 == n;
            assert(changed[i].0 == n);
        }
        if n == name {
            assert(changed[at].0 == n);
        }
    }
    assert forall|n: Seq<char>| left.contains_key(n) implies left[n] == right[n] by {
        lemma_last_position(changed, n);
        let k = last_position(changed, n);
        if n == name {
            if k != at {
                assert(pairs[k].0 == pairs[at].0);
            }
        } else {
            assert forall|j: int| k < j < pairs.len() implies (#[trigger] pairs[j]).0 != n by {
                assert(changed[j].0 != n);
            }
            assert(pairs[k].0 == n);
            assert(is_last(pairs, n, k));
            lemma_last_is_unique(pairs, n, k);
        }
    }
    assert(left =~= right);
}

/// Where the names are distinct, every pair is in the mapping as it stands.
pub proof fn lemma_distinct_pairs_are_kept(pairs: Seq<(Seq<char>, Seq<char>)>, i: int)
    requires
        distinct_names(pairs),
        0 <= i < pairs.len(),
    ensures
        last_write_wins(pairs).contains_key(pairs[i].0),
        last_write_wins(pairs)[pairs[i].0] == pairs[i].1,
{
    let name = pairs[i].0;
    assert(is_last(pairs, name, i)) by {
        assert forall|j: int| i < j < pairs.len() implies (#[trigger] pairs[j]).0 != name by {}
    }
    lemma_last_is_unique(pairs, name, i);
}

/// Where no name repeats, the mapping has as many keys as there are pairs.
pub proof fn lemma_distinct_names_count(pairs: Seq<(Seq<char>, Seq<char>)>)
    requires
        distinct_names(pairs),
    ensures
        last_write_wins(pairs).dom().finite(),
        last_write_wins(pairs).len() == pairs.len(),
{
    let names = pairs.map_values(|pair: (Seq<char>, Seq<char>)| pair.0);
    assert(names.no_duplicates()) by {
        assert forall|i: int, j: int| 0 <= i < names.len() && 0 <= j < names.len() && i != j implies names[i] != names[j] by {
            if i < j {
                assert(pairs[i].0 != pairs[j].0);
            } else {
                assert(pairs[j].0 != pairs[i].0);
            }
        }
    }
    assert(last_write_wins(pairs).dom() =~= names.to_set()) by {
        assert forall|name: Seq<char>| has_name(pairs, name) <==> names.contains(name) by {
            if has_name(pairs, name) {
                let i = choose|i: int| 0 <= i < pairs.len() && (#[trigger] pairs[i]).0 == name;
                assert(names[i] == name);
            }
            if names.contains(name) {
                let i = choose|i: int| 0 <= i < names.len() && names[i] == name;
                assert(pairs[i].0 == name);
            }
        }
    }
    names.unique_seq_to_set();
    vstd::seq_lib::seq_to_set_is_finite(names);
}

/// A name that was visited, once or many times, has one path in the
/// mapping: the path of the pair that carried the name last.
pub proof fn lemma_repeated_name_keeps_last(pairs: Seq<(Seq<char>, Seq<char>)>, i: int)
    requires
        0 <= i < pairs.len(),
    ensures
        last_write_wins(pairs).contains_key(pairs[i].0),
        exists|k: int|
            i <= k && #[trigger] is_last(pairs, pairs[i].0, k) && last_write_wins(pairs)[pairs[i].0]
                == pairs[k].1,
{
    let name = pairs[i].0;
    lemma_last_position(pairs, name);
    let k = last_position(pairs, name);
    if k < i {
        assert(pairs[i].0 != name);
    }
    assert(is_last(pairs, name, k));
}

/// A path in the mapping came with its name: nothing is in the mapping
/// that was not visited.
pub proof fn lemma_mapping_holds_visited_pairs(
    pairs: Seq<(Seq<char>, Seq<char>)>,
    name: Seq<char>,
)
    requires
        last_write_wins(pairs).contains_key(name),
    ensures
        pairs.contains((name, last_write_wins(pairs)[name])),
{
    lemma_last_position(pairs, name);
    let k = last_position(pairs, name);
    assert(pairs[k] == (name, last_write_wins(pairs)[name]));
}

/// The order of a listing does not matter to its mapping: two listings
/// without repeated names that hold the same pairs, in whatever order, stand
/// for the same mapping. So a table that is handed on as its pairs comes
/// back as the same mapping, however the pairs were shuffled on the way.
pub proof fn lemma_same_pairs_same_mapping(
    first: Seq<(Seq<char>, Seq<char>)>,
    second: Seq<(Seq<char>, Seq<char>)>,
)
    requires
        distinct_names(first),
        distinct_names(second),
        forall|pair: (Seq<char>, Seq<char>)| first.contains(pair) <==> second.contains(pair),
    ensures
        last_write_wins(first) == last_write_wins(second),
{
    let left = last_write_wins(first);
    let right = last_write_wins(second);
    assert forall|name: Seq<char>| left.contains_key(name) <==> right.contains_key(name) by {
        if left.contains_key(name) {
            lemma_mapping_holds_visited_pairs(first, name);
            let pair = (name, left[name]);
            assert(second.contains(pair));
            let j = choose|j: int| 0 <= j < second.len() && second[j] == pair;
            assert(second[j].0 == name);
        }
        if right.contains_key(name) {
            lemma_mapping_holds_visited_pairs(second, name);
            let pair = (name, right[name]);
            assert(first.contains(pair));
            let i = choose|i: int| 0 <= i < first.len() && first[i] == pair;
            assert(first[i].0 == name);
        }
    }
    assert forall|name: Seq<char>| left.contains_key(name) implies left[name] == right[name] by {
        lemma_mapping_holds_visited_pairs(first, name);
        let pair = (name, left[name]);
        assert(second.contains(pair));
        let j = choose|j: int| 0 <= j < second.len() && second[j] == pair;
        lemma_distinct_pairs_are_kept(second, j);
    }
    assert(left =~= right);
}

/// A lookup table from name to path, with at most one path per name.
///
/// Its view is the mapping. Its entries are the same mapping as a listing
/// that holds every name once, in the order in which the names first came.
pub struct FileIndex {
    entries: Vec<(String, String)>,
    positions: StringHashMap<usize>,
}

impl View for FileIndex {
    type V = Map<Seq<char>, Seq<char>>;

    open spec fn view(&self) -> Map<Seq<char>, Seq<char>> {
        last_write_wins(self.entries())
    }
}

impl FileIndex {
    /// The (name, path) pairs of the table, in the order in which `pairs`
    /// hands them out.
    pub closed spec fn entries(&self) -> Seq<(Seq<char>, Seq<char>)> {
        self.entries.deep_view()
    }

    /// Every entry is found through `positions`, and `positions` knows no
    /// other name.
    #[verifier::type_invariant]
    closed spec fn wf(&self) -> bool {
        &&& forall|i: int|
            0 <= i < self.entries().len() ==> {
                &&& self.positions@.contains_key((#[trigger] self.entries()[i]).0)
                &&& self.positions@[self.entries()[i].0] == i
            }
        &&& forall|name: Seq<char>| #[trigger]
            self.positions@.contains_key(name) ==> {
                &&& 0 <= self.positions@[name] < self.entries().len()
                &&& self.entries()[self.positions@[name] as int].0 == name
            }
    }

    /// What the invariant says of the entries and of the mapping: the names
    /// are distinct, and the mapping is found through `positions`.
    proof fn lemma_positions_agree(&self)
        requires
            self.wf(),
        ensures
            distinct_names(self.entries()),
            forall|name: Seq<char>|
                self@.contains_key(name) <==> self.positions@.contains_key(name),
            forall|name: Seq<char>| #[trigger]
                self.positions@.contains_key(name) ==> self@[name] == self.entries()[self.positions@[name] as int].1,
    {
        let pairs = self.entries();
        assert forall|name: Seq<char>|
            self@.contains_key(name) <==> self.positions@.contains_key(name) by {
            if has_name(pairs, name) {
                let i = choose|i: int| 0 <= i < pairs.len() && (#[trigger] pairs[i]).0 == name;
                assert(self.positions@.contains_key(pairs[i].0));
            }
            if self.positions@.contains_key(name) {
                assert(pairs[self.positions@[name] as int].0 == name);
            }
        }
        assert forall|name: Seq<char>| #[trigger]
            self.positions@.contains_key(name) implies self@[name] == pairs[self.positions@[name] as int].1 by {
            lemma_distinct_pairs_are_kept(pairs, self.positions@[name] as int);
        }
    }

    /// The empty table.
    pub fn new() -> (index: Self)
        ensures
            index@ == Map::<Seq<char>, Seq<char>>::empty(),
            index.entries() == Seq::<(Seq<char>, Seq<char>)>::empty(),
    {
        let index = FileIndex { entries: Vec::new(), positions: StringHashMap::new() };
        assert(index.entries() =~= Seq::empty());
        assert(index@ =~= Map::empty());
        index
    }

    /// Maps `name` to `path`. A path that `name` had before is forgotten,
    /// and the name keeps its place among the entries; a new name comes last.
    pub fn insert(&mut self, name: String, path: String)
        ensures
            final(self)@ == old(self)@.insert(name@, path@),
            final(self).entries() == entered(old(self).entries(), name@, path@),
    {
        proof {
            use_type_invariant(&*self);
            self.lemma_positions_agree();
        }
        let mut taken = FileIndex::new();
        std::mem::swap(self, &mut taken);
        let FileIndex { mut entries, mut positions } = taken;
        let ghost before = entries.deep_view();
        let found: Option<usize> = match positions.get(name.as_str()) {
            Some(at) => Some(*at),
            None => None,
        };
        match found {
            Some(at) => {
                entries.set(at, (name, path));
                proof {
                    assert(entries.deep_view() =~= before.update(at as int, (name@, path@)));
                    lemma_replace_path(before, at as int, path@);
                    assert(before[at as int].0 == name@);
                    assert(position(before, name@) == at) by {
                        let i = position(before, name@);
                        if i < at {
                            assert(before[i].0 != before[at as int].0);
                        } else if at < i {
                            assert(before[at as int].0 != before[i].0);
                        }
                    }
                }
            },
            None => {
                let key = name.clone();
                positions.insert(key, entries.len());
                entries.push((name, path));
                proof {
                    assert(entries.deep_view() =~= before.push((name@, path@)));
                    lemma_visit_one_more(before, name@, path@);
                    assert(!has_name(before, name@));
                }
            },
        }
        *self = FileIndex { entries, positions };
    }

    /// The path that `name` maps to, if it maps to one.
    pub fn get(&self, name: &str) -> (path: Option<&String>)
        ensures
            match path {
                Some(found) => self@.contains_key(name@) && found@ == self@[name@],
                None => !self@.contains_key(name@),
            },
    {
        proof {
            use_type_invariant(self);
            self.lemma_positions_agree();
        }
        match self.positions.get(name) {
            Some(at) => {
                assert(self.entries()[*at as int].1 == self.entries@[*at as int].1@);
                Some(&self.entries[*at].1)
            },
            None => None,
        }
    }

    /// Whether `name` maps to a path.
    pub fn contains_key(&self, name: &str) -> (found: bool)
        ensures
            found == self@.contains_key(name@),
    {
        proof {
            use_type_invariant(self);
            self.lemma_positions_agree();
        }
        self.positions.contains_key(name)
    }

    /// The number of names in the table.
    pub fn len(&self) -> (count: usize)
        ensures
            self@.dom().finite(),
            count == self@.len(),
            count == self.entries().len(),
    {
        proof {
            use_type_invariant(self);
            self.lemma_positions_agree();
            lemma_distinct_names_count(self.entries());
        }
        self.entries.len()
    }

    /// Whether the table holds no name.
    pub fn is_empty(&self) -> (empty: bool)
        ensures
            empty == (self@ == Map::<Seq<char>, Seq<char>>::empty()),
    {
        proof {
            use_type_invariant(self);
            self.lemma_positions_agree();
            if self.entries().len() > 0 {
                assert(self@.contains_key(self.entries()[0].0));
            } else {
                assert(self@ =~= Map::empty());
            }
        }
        self.entries.len() == 0
    }

    /// The table as a listing: every name once, with its path.
    pub fn pairs(&self) -> (listing: &Vec<(String, String)>)
        ensures
            listing.deep_view() == self.entries(),
            distinct_names(self.entries()),
    {
        proof {
            use_type_invariant(self);
            self.lemma_positions_agree();
        }
        &self.entries
    }

    /// The table that visiting `pairs` in order leaves behind.
    pub fn from_pairs(pairs: Vec<(String, String)>) -> (index: Self)
        ensures
            index@ == last_write_wins(pairs.deep_view()),
            index.entries() == entered_all(Seq::empty(), pairs.deep_view()),
    {
        let mut index = FileIndex::new();
        let ghost all = pairs.deep_view();
        let ghost given = pairs@;
        assert(all.take(0) =~= Seq::empty());
        for pair in it: pairs
            invariant
                it.seq() == given,
                all.len() == given.len(),
                forall|i: int| 0 <= i < given.len() ==> all[i] == (#[trigger] given[i]).deep_view(),
                index@ == last_write_wins(all.take(it.index() as int)),
                index.entries() == entered_all(Seq::empty(), all.take(it.index() as int)),
        {
            proof {
                let done = it.index() as int;
                assert(all.take(done + 1) =~= all.take(done).push((pair.0@, pair.1@)));
                assert(all.take(done + 1).drop_last() =~= all.take(done));
                lemma_visit_one_more(all.take(done), pair.0@, pair.1@);
            }
            index.insert(pair.0, pair.1);
        }
        assert(all.take(all.len() as int) =~= all);
        index
    }
}

} // verus!
