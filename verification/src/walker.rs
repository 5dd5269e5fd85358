//! The directory walker: from a directory tree to the lookup table.
//!
//! The walk visits a directory's entries in their order and goes down into a
//! subdirectory right after it has visited the subdirectory's own entry. A
//! directory whose name is the skip name is left out with all that lies
//! below it.

use crate::index::{
    distinct_names, entered_all, is_last, last_write_wins, lemma_distinct_names_count,
    lemma_distinct_pairs_are_kept, lemma_entered_in_two_steps, lemma_mapping_holds_visited_pairs,
    lemma_repeated_name_keeps_last, lemma_visit_one_more, FileIndex,
};
use crate::text::same_text;
use vstd::prelude::*;

verus! {

/// One entry of a directory, as a listing of the directory gives it: a file,
/// or a directory with the listing of its own entries.
pub struct TreeEntry {
    /// The final segment of the entry's path.
    pub name: String,
    /// The entry's full path.
    pub path: String,
    /// Whether the entry is a directory.
    pub is_dir: bool,
    /// The entries of a directory that could be read; empty otherwise.
    pub children: Vec<TreeEntry>,
}

/// The directory whose tree is indexed.
pub const ROOT_FOLDER: &'static str = "/Users";

/// The name of the directories that the walk leaves out.
pub const SKIP_DIRECTORY: &'static str = "Library";

impl TreeEntry {
    /// An entry that is no directory.
    pub fn file(name: String, path: String) -> (entry: TreeEntry)
        ensures
            entry.name == name,
            entry.path == path,
            !entry.is_dir,
            entry.children@ == Seq::<TreeEntry>::empty(),
    {
        TreeEntry { name, path, is_dir: false, children: Vec::new() }
    }

    /// A directory with the entries that its listing gave.
    pub fn directory(name: String, path: String, children: Vec<TreeEntry>) -> (entry: TreeEntry)
        ensures
            entry.name == name,
            entry.path == path,
            entry.is_dir,
            entry.children == children,
    {
        TreeEntry { name, path, is_dir: true, children }
    }
}

/// The (name, path) pair that stands for `entry` in the table.
pub open spec fn pair_of(entry: TreeEntry) -> (Seq<char>, Seq<char>) {
    (entry.name@, entry.path@)
}

/// Whether the walk leaves `entry` out: it is a directory named `skip`.
pub open spec fn skipped(entry: TreeEntry, skip: Seq<char>) -> bool {
    entry.is_dir && entry.name@ == skip
}

/// Whether the walk leaves out an entry with this name: it does where the
/// entry is a directory and its name is `skip`, letter for letter. A caller
/// that lists directories need not list such a directory.
pub fn is_skipped(name: &str, is_dir: bool, skip: &str) -> (out: bool)
    ensures
        out == (is_dir && name@ == skip@),
{
    is_dir && same_text(name, skip)
}

/// The pairs that the walk visits for `entry`, in order: none where the
/// entry is left out, else the entry's own pair and then what lies below.
pub open spec fn visit_entry(entry: TreeEntry, skip: Seq<char>) -> Seq<(Seq<char>, Seq<char>)>
    decreases entry, 1nat,
{
    if skipped(entry, skip) {
        Seq::empty()
    } else {
        seq![pair_of(entry)] + visit_below(entry, skip)
    }
}

/// The pairs that the walk visits below `entry`, in order: the entries of a
/// directory that is not left out, level by level.
pub open spec fn visit_below(entry: TreeEntry, skip: Seq<char>) -> Seq<(Seq<char>, Seq<char>)>
    decreases entry, 0nat,
{
    if entry.is_dir && entry.name@ != skip {
        visit_listing(entry.children@, skip)
    } else {
        Seq::empty()
    }
}

/// The pairs that the walk visits for the entries of `listing`, in order.
pub open spec fn visit_listing(listing: Seq<TreeEntry>, skip: Seq<char>) -> Seq<
    (Seq<char>, Seq<char>),
>
    decreases listing, 0nat,
{
    if listing.len() == 0 {
        Seq::empty()
    } else {
        visit_listing(listing.drop_last(), skip) + visit_entry(listing.last(), skip)
    }
}

/// The mapping `base` after `pairs` were visited in order.
pub open spec fn overlay(base: Map<Seq<char>, Seq<char>>, pairs: Seq<(Seq<char>, Seq<char>)>) -> Map<
    Seq<char>,
    Seq<char>,
> {
    base.union_prefer_right(last_write_wins(pairs))
}

proof fn lemma_overlay_one_more(
    base: Map<Seq<char>, Seq<char>>,
    pairs: Seq<(Seq<char>, Seq<char>)>,
    name: Seq<char>,
    path: Seq<char>,
)
    ensures
        overlay(base, pairs.push((name, path))) == overlay(base, pairs).insert(name, path),
{
    lemma_visit_one_more(pairs, name, path);
    assert(overlay(base, pairs.push((name, path))) =~= overlay(base, pairs).insert(name, path));
}

proof fn lemma_overlay_in_two_steps(
    base: Map<Seq<char>, Seq<char>>,
    first: Seq<(Seq<char>, Seq<char>)>,
    second: Seq<(Seq<char>, Seq<char>)>,
)
    ensures
        overlay(base, first + second) == overlay(overlay(base, first), second),
    decreases second.len(),
{
    if second.len() == 0 {
        assert(first + second =~= first);
        assert(overlay(overlay(base, first), second) =~= overlay(base, first));
    } else {
        let front = second.drop_last();
        let last = second.last();
        lemma_overlay_in_two_steps(base, first, front);
        assert(first + second =~= (first + front).push(last));
        assert(second =~= front.push(last));
        lemma_overlay_one_more(base, first + front, last.0, last.1);
        lemma_overlay_one_more(overlay(base, first), front, last.0, last.1);
    }
}

/// Visits what lies below the directory `dir` and enters every visited pair
/// into `index`. Nothing is visited where `dir` is no directory or is named
/// `skip`.
pub fn index_recursive(dir: &TreeEntry, skip: &str, index: &mut FileIndex)
    ensures
        final(index)@ == overlay(old(index)@, visit_below(*dir, skip@)),
        final(index).entries() == entered_all(old(index).entries(), visit_below(*dir, skip@)),
    decreases dir,
{
    let ghost start = index@;
    let ghost held = index.entries();
    if !dir.is_dir || is_skipped(dir.name.as_str(), true, skip) {
        assert(overlay(start, Seq::empty()) =~= start);
        return;
    }
    let ghost listing = dir.children@;
    let mut i: usize = 0;
    assert(overlay(start, visit_listing(listing.take(0), skip@)) =~= start);
    while i < dir.children.len()
        invariant
            i <= listing.len(),
            listing == dir.children@,
            index@ == overlay(start, visit_listing(listing.take(i as int), skip@)),
            index.entries() == entered_all(held, visit_listing(listing.take(i as int), skip@)),
        decreases listing.len() - i,
    {
        let child = &dir.children[i];
        let ghost done = visit_listing(listing.take(i as int), skip@);
        proof {
            assert(listing.take(i + 1).drop_last() =~= listing.take(i as int));
            assert(listing.take(i + 1).last() == *child);
        }
        if !is_skipped(child.name.as_str(), child.is_dir, skip) {
            index.insert(child.name.clone(), child.path.clone());
            proof {
                lemma_overlay_one_more(start, done, child.name@, child.path@);
            }
            if child.is_dir {
                index_recursive(child, skip, index);
            }
            proof {
                let own = seq![pair_of(*child)];
                let below = visit_below(*child, skip@);
                assert(overlay(overlay(start, done.push(pair_of(*child))), Seq::empty()) =~= overlay(
                    start,
                    done.push(pair_of(*child)),
                ));
                lemma_overlay_in_two_steps(start, done.push(pair_of(*child)), below);
                assert(done.push(pair_of(*child)).drop_last() =~= done);
                lemma_entered_in_two_steps(held, done.push(pair_of(*child)), below);
                assert(done.push(pair_of(*child)) + below =~= done + (own + below));
                assert(index@ == overlay(start, done + (own + below)));
                assert(visit_entry(*child, skip@) == own + below);
                assert(visit_listing(listing.take(i + 1), skip@) == done + visit_entry(*child, skip@));
            }
        } else {
            assert(done + Seq::empty() =~= done);
            assert(visit_entry(*child, skip@) == Seq::<(Seq<char>, Seq<char>)>::empty());
            assert(visit_listing(listing.take(i + 1), skip@) == done + visit_entry(*child, skip@));
        }
        i += 1;
    }
    assert(listing.take(i as int) =~= listing);
}

/// Builds the table of the tree under `root`: of every entry below `root`
/// that no directory named `skip` holds or is, in the order of the walk. The
/// root's own entry is not part of the table.
pub fn build(root: &TreeEntry, skip: &str) -> (index: FileIndex)
    ensures
        index@ == last_write_wins(visit_below(*root, skip@)),
        index.entries() == entered_all(Seq::empty(), visit_below(*root, skip@)),
{
    let mut index = FileIndex::new();
    index_recursive(root, skip, &mut index);
    assert(overlay(Map::empty(), visit_below(*root, skip@)) =~= last_write_wins(
        visit_below(*root, skip@),
    ));
    index
}

/// Every pair of `entry` and of what lies below it, nothing left out.
pub open spec fn all_of_entry(entry: TreeEntry) -> Seq<(Seq<char>, Seq<char>)>
    decreases entry, 1nat,
{
    seq![pair_of(entry)] + all_below(entry)
}

/// Every pair of what lies below `entry`, nothing left out.
pub open spec fn all_below(entry: TreeEntry) -> Seq<(Seq<char>, Seq<char>)>
    decreases entry, 0nat,
{
    if entry.is_dir {
        all_of_listing(entry.children@)
    } else {
        Seq::empty()
    }
}

/// Every pair of the entries of `listing` and of what lies below them.
pub open spec fn all_of_listing(listing: Seq<TreeEntry>) -> Seq<(Seq<char>, Seq<char>)>
    decreases listing, 0nat,
{
    if listing.len() == 0 {
        Seq::empty()
    } else {
        all_of_listing(listing.drop_last()) + all_of_entry(listing.last())
    }
}

/// The pairs of `entry` and of what lies below it that belong to a
/// directory named `skip`: such a directory's own pair, and every pair below
/// it, at any depth.
pub open spec fn left_out_of_entry(entry: TreeEntry, skip: Seq<char>) -> Seq<(Seq<char>, Seq<char>)>
    decreases entry, 1nat,
{
    if skipped(entry, skip) {
        all_of_entry(entry)
    } else {
        left_out_below(entry, skip)
    }
}

/// The pairs below `entry` that belong to a directory named `skip`: all of
/// them where `entry` is such a directory itself.
pub open spec fn left_out_below(entry: TreeEntry, skip: Seq<char>) -> Seq<(Seq<char>, Seq<char>)>
    decreases entry, 0nat,
{
    if !entry.is_dir {
        Seq::empty()
    } else if entry.name@ == skip {
        all_below(entry)
    } else {
        left_out_of_listing(entry.children@, skip)
    }
}

/// The pairs of `listing` and below that belong to a directory named `skip`.
pub open spec fn left_out_of_listing(listing: Seq<TreeEntry>, skip: Seq<char>) -> Seq<
    (Seq<char>, Seq<char>),
>
    decreases listing, 0nat,
{
    if listing.len() == 0 {
        Seq::empty()
    } else {
        left_out_of_listing(listing.drop_last(), skip) + left_out_of_entry(listing.last(), skip)
    }
}

/// Every entry below `root` is either visited or belongs to a directory
/// named `skip`: the pairs of the tree are those that the walk visits
/// together with those that it leaves out, each as often as it occurs.
pub proof fn lemma_visited_or_left_out(root: TreeEntry, skip: Seq<char>)
    ensures
        all_below(root).to_multiset() == visit_below(root, skip).to_multiset().add(
            left_out_below(root, skip).to_multiset(),
        ),
    decreases root, 0nat,
{
    broadcast use vstd::seq_lib::lemma_multiset_commutative;

    if root.is_dir && root.name@ != skip {
        lemma_listing_visited_or_left_out(root.children@, skip);
    } else {
        assert(all_below(root) =~= visit_below(root, skip) + left_out_below(root, skip));
    }
}

proof fn lemma_entry_visited_or_left_out(entry: TreeEntry, skip: Seq<char>)
    ensures
        all_of_entry(entry).to_multiset() == visit_entry(entry, skip).to_multiset().add(
            left_out_of_entry(entry, skip).to_multiset(),
        ),
    decreases entry, 1nat,
{
    broadcast use vstd::seq_lib::lemma_multiset_commutative;

    if skipped(entry, skip) {
        assert(all_of_entry(entry) =~= visit_entry(entry, skip) + left_out_of_entry(entry, skip));
    } else {
        lemma_visited_or_left_out(entry, skip);
        let own = seq![pair_of(entry)].to_multiset();
        assert(all_of_entry(entry).to_multiset() =~= own.add(all_below(entry).to_multiset()));
        assert(visit_entry(entry, skip).to_multiset() =~= own.add(
            visit_below(entry, skip).to_multiset(),
        ));
        assert(own.add(all_below(entry).to_multiset()) =~= own.add(
            visit_below(entry, skip).to_multiset(),
        ).add(left_out_below(entry, skip).to_multiset()));
    }
}

proof fn lemma_listing_visited_or_left_out(listing: Seq<TreeEntry>, skip: Seq<char>)
    ensures
        all_of_listing(listing).to_multiset() == visit_listing(listing, skip).to_multiset().add(
            left_out_of_listing(listing, skip).to_multiset(),
        ),
    decreases listing, 0nat,
{
    broadcast use vstd::seq_lib::lemma_multiset_commutative;

    if listing.len() == 0 {
        assert(all_of_listing(listing) =~= visit_listing(listing, skip) + left_out_of_listing(
            listing,
            skip,
        ));
    } else {
        let front = listing.drop_last();
        let last = listing.last();
        lemma_listing_visited_or_left_out(front, skip);
        lemma_entry_visited_or_left_out(last, skip);
        let all = all_of_listing(front).to_multiset().add(all_of_entry(last).to_multiset());
        let parts = visit_listing(front, skip).to_multiset().add(
            visit_entry(last, skip).to_multiset(),
        ).add(
            left_out_of_listing(front, skip).to_multiset().add(
                left_out_of_entry(last, skip).to_multiset(),
            ),
        );
        assert(all =~= parts);
    }
}

/// What belongs to a directory named `skip` is not in the table: neither
/// such a directory's own entry nor any entry below it, at any depth.
///
/// This is said of a tree in which no (name, path) pair occurs twice, as in
/// a file system, where no two entries share a path. In another tree a pair
/// that is left out in one place may be visited in another.
pub proof fn lemma_skipped_directories_are_left_out(
    root: TreeEntry,
    skip: Seq<char>,
    pair: (Seq<char>, Seq<char>),
)
    requires
        all_below(root).no_duplicates(),
        left_out_below(root, skip).contains(pair),
    ensures
        !visit_below(root, skip).contains(pair),
        !(last_write_wins(visit_below(root, skip)).contains_key(pair.0) && last_write_wins(
            visit_below(root, skip),
        )[pair.0] == pair.1),
{
    broadcast use vstd::seq_lib::to_multiset_contains;

    lemma_visited_or_left_out(root, skip);
    all_below(root).lemma_multiset_has_no_duplicates();
    assert(left_out_below(root, skip).to_multiset().count(pair) > 0);
    assert(all_below(root).to_multiset().count(pair) <= 1);
    assert(visit_below(root, skip).to_multiset().count(pair) == 0);
    if last_write_wins(visit_below(root, skip)).contains_key(pair.0) {
        lemma_mapping_holds_visited_pairs(visit_below(root, skip), pair.0);
    }
}

/// Where no two visited entries share a name, the table holds every visited
/// entry: as many names as entries were visited, each name with the path of
/// its entry.
pub proof fn lemma_distinct_names_are_all_kept(root: TreeEntry, skip: Seq<char>)
    requires
        distinct_names(visit_below(root, skip)),
    ensures
        last_write_wins(visit_below(root, skip)).dom().finite(),
        last_write_wins(visit_below(root, skip)).len() == visit_below(root, skip).len(),
        forall|i: int|
            0 <= i < visit_below(root, skip).len() ==> {
                let pair = #[trigger] visit_below(root, skip)[i];
                last_write_wins(visit_below(root, skip)).contains_key(pair.0) && last_write_wins(
                    visit_below(root, skip),
                )[pair.0] == pair.1
            },
{
    let visited = visit_below(root, skip);
    lemma_distinct_names_count(visited);
    assert forall|i: int| 0 <= i < visited.len() implies {
        let pair = #[trigger] visited[i];
        last_write_wins(visited).contains_key(pair.0) && last_write_wins(visited)[pair.0] == pair.1
    } by {
        lemma_distinct_pairs_are_kept(visited, i);
    }
}

/// Where visited entries share a name, the table holds that name once, with
/// the path of one of them: of the one that the walk visited last.
pub proof fn lemma_shared_name_keeps_one_path(root: TreeEntry, skip: Seq<char>, i: int)
    requires
        0 <= i < visit_below(root, skip).len(),
    ensures
        last_write_wins(visit_below(root, skip)).contains_key(visit_below(root, skip)[i].0),
        exists|k: int|
            i <= k && #[trigger] is_last(visit_below(root, skip), visit_below(root, skip)[i].0, k)
                && last_write_wins(visit_below(root, skip))[visit_below(root, skip)[i].0]
                == visit_below(root, skip)[k].1,
{
    lemma_repeated_name_keeps_last(visit_below(root, skip), i);
}

} // verus!
