//! Directory trees, and what a walk through one finds.

use crate::scan::{
    advanced, first_directory, hits, lemma_first_directory_bounds, listed, match_count, started,
    wanted, EntryKind, EntryView, ListingView, ScanView,
};
use crate::text::occurs_in;
use vstd::prelude::*;
use vstd::seq_lib::lemma_multiset_commutative;

verus! {

/// A directory entry together with what lies below it. Only a directory
/// has anything below it: the children of another entry count for nothing.
pub struct Tree {
    pub entry: EntryView,
    pub children: Seq<Tree>,
}

/// The entries at the top of `forest`, in their order.
pub open spec fn roots(forest: Seq<Tree>) -> Seq<EntryView> {
    Seq::new(forest.len(), |i: int| forest[i].entry)
}

/// The paths found in `forest`: tree by tree in their order, in a directory
/// what is found among its children, and for a file its hits.
pub open spec fn located(forest: Seq<Tree>, patterns: Seq<Seq<char>>) -> Seq<Seq<char>>
    decreases forest,
{
    if forest.len() == 0 {
        Seq::empty()
    } else {
        let first = forest[0];
        let found = match first.entry.kind {
            EntryKind::Directory => located(first.children, patterns),
            EntryKind::File => hits(first.entry, patterns),
            EntryKind::Other => Seq::empty(),
        };
        found + located(forest.skip(1), patterns)
    }
}

/// The files in `forest`, in the order of the walk.
pub open spec fn files(forest: Seq<Tree>) -> Seq<EntryView>
    decreases forest,
{
    if forest.len() == 0 {
        Seq::empty()
    } else {
        let first = forest[0];
        let found = match first.entry.kind {
            EntryKind::Directory => files(first.children),
            EntryKind::File => seq![first.entry],
            EntryKind::Other => Seq::empty(),
        };
        found + files(forest.skip(1))
    }
}

/// What a walk from `root` finds: where `root` is a directory, what is
/// found among its children, and nothing where it is not. `root` itself is
/// never held against the patterns.
pub open spec fn icon_paths(root: Tree, patterns: Seq<Seq<char>>) -> Seq<Seq<char>> {
    if root.entry.kind is Directory {
        located(root.children, patterns)
    } else {
        Seq::empty()
    }
}

/// The number of entries in `forest`, at every depth.
pub open spec fn nodes(forest: Seq<Tree>) -> nat
    decreases forest,
{
    if forest.len() == 0 {
        0
    } else {
        1 + nodes(forest[0].children) + nodes(forest.skip(1))
    }
}

/// The entries of two forests put together are counted forest by forest.
pub proof fn lemma_nodes_concat(front: Seq<Tree>, back: Seq<Tree>)
    ensures
        nodes(front + back) == nodes(front) + nodes(back),
    decreases front.len(),
{
    if front.len() == 0 {
        assert(front + back =~= back);
    } else {
        lemma_nodes_concat(front.skip(1), back);
        assert((front + back).skip(1) =~= front.skip(1) + back);
    }
}

/// A tree of a forest, with what lies below it, and the trees behind it
/// hold fewer entries than the forest.
pub proof fn lemma_nodes_behind(forest: Seq<Tree>, at: int)
    requires
        0 <= at < forest.len(),
    ensures
        nodes(forest[at].children) + nodes(forest.skip(at + 1)) < nodes(forest),
    decreases at,
{
    if at > 0 {
        lemma_nodes_behind(forest.skip(1), at - 1);
        assert(forest.skip(1).skip(at) =~= forest.skip(at + 1));
    }
}

/// Where a walk ends that is at rest in `scan`, when the directory it asks
/// for holds `holds`, the entries it has pending are the roots of `rest`,
/// and every directory it asks for later is listed as these trees have it.
pub open spec fn outcome(scan: ScanView, holds: Seq<Tree>, rest: Seq<Tree>) -> ScanView
    decreases nodes(holds) + nodes(rest),
{
    let next = advanced(scan, ListingView::Entries(roots(holds)));
    let forest = holds + rest;
    let stop = first_directory(roots(forest));
    if next is Reading && 0 <= stop < forest.len() {
        proof {
            lemma_nodes_concat(holds, rest);
            lemma_nodes_behind(forest, stop);
        }
        outcome(next, forest[stop].children, forest.skip(stop + 1))
    } else {
        next
    }
}

/// What is found in two forests put together is what is found in the one,
/// followed by what is found in the other.
pub proof fn lemma_located_concat(front: Seq<Tree>, back: Seq<Tree>, patterns: Seq<Seq<char>>)
    ensures
        located(front + back, patterns) == located(front, patterns) + located(back, patterns),
    decreases front.len(),
{
    if front.len() == 0 {
        assert(front + back =~= back);
        assert(located(front, patterns) + located(back, patterns) =~= located(back, patterns));
    } else {
        lemma_located_concat(front.skip(1), back, patterns);
        assert((front + back).skip(1) =~= front.skip(1) + back);
        let first = front[0];
        let found = match first.entry.kind {
            EntryKind::Directory => located(first.children, patterns),
            EntryKind::File => hits(first.entry, patterns),
            EntryKind::Other => Seq::empty(),
        };
        assert(found + (located(front.skip(1), patterns) + located(back, patterns)) =~= (found
            + located(front.skip(1), patterns)) + located(back, patterns));
    }
}

/// In a forest without a directory at its top, what is found is what is
/// found among its roots.
pub proof fn lemma_located_without_directory(forest: Seq<Tree>, patterns: Seq<Seq<char>>)
    requires
        forall|i: int| 0 <= i < forest.len() ==> !(forest[i].entry.kind is Directory),
    ensures
        located(forest, patterns) == listed(roots(forest), patterns),
    decreases forest.len(),
{
    if forest.len() > 0 {
        let rest = forest.skip(1);
        assert forall|i: int| 0 <= i < rest.len() implies !(rest[i].entry.kind is Directory) by {
            assert(rest[i] == forest[i + 1]);
        }
        lemma_located_without_directory(rest, patterns);
        assert(roots(forest).skip(1) =~= roots(rest));
        assert(Seq::<Seq<char>>::empty() + listed(roots(rest), patterns) =~= listed(
            roots(rest),
            patterns,
        ));
    }
}

/// The directory a walk asks for next is the first directory among the
/// entries it holds, and what it then has pending are the entries behind
/// that directory. So the listing that `outcome` answers with is that of
/// the directory asked for.
pub proof fn lemma_walk_asks_in_order(scan: ScanView, holds: Seq<Tree>, rest: Seq<Tree>)
    requires
        scan is Reading,
        scan->walk.pending == roots(rest),
    ensures
        ({
            let forest = holds + rest;
            let stop = first_directory(roots(forest));
            let next = advanced(scan, ListingView::Entries(roots(holds)));
            &&& 0 <= stop <= forest.len()
            &&& stop == forest.len() ==> next is Done
            &&& stop < forest.len() ==> {
                &&& next is Reading
                &&& forest[stop].entry.kind is Directory
                &&& next->Reading_directory == forest[stop].entry.path
                &&& next->walk.pending == roots(forest.skip(stop + 1))
                &&& next->walk.patterns == scan->walk.patterns
            }
        }),
{
    let forest = holds + rest;
    let pending = roots(forest);
    let stop = first_directory(pending);
    assert(roots(holds) + scan->walk.pending =~= pending);
    lemma_first_directory_bounds(pending);
    if stop < forest.len() {
        assert(pending.skip(stop + 1) =~= roots(forest.skip(stop + 1)));
    }
}

/// A walk that is fed the listings of a forest finds what is found in the
/// forest: it ends, and ends with the paths it had, followed by those found
/// in the directory it asked for and in the trees of its pending entries.
pub proof fn lemma_walk_finds_located(scan: ScanView, holds: Seq<Tree>, rest: Seq<Tree>)
    requires
        scan is Reading,
        scan->walk.pending == roots(rest),
    ensures
        outcome(scan, holds, rest) == (ScanView::Done {
            paths: scan->walk.found + located(holds + rest, scan->walk.patterns),
        }),
    decreases nodes(holds) + nodes(rest),
{
    let walk = scan->walk;
    let patterns = walk.patterns;
    let forest = holds + rest;
    let pending = roots(forest);
    let stop = first_directory(pending);
    let next = advanced(scan, ListingView::Entries(roots(holds)));
    assert(roots(holds) + walk.pending =~= pending);
    lemma_first_directory_bounds(pending);
    let front = forest.take(stop);
    let found = walk.found + listed(pending.take(stop), patterns);
    assert(pending.take(stop) =~= roots(front));
    assert forall|i: int| 0 <= i < front.len() implies !(front[i].entry.kind is Directory) by {
        assert(front[i].entry == pending[i]);
    }
    lemma_located_without_directory(front, patterns);
    if stop < forest.len() {
        let behind = forest[stop].children + forest.skip(stop + 1);
        assert(pending.skip(stop + 1) =~= roots(forest.skip(stop + 1)));
        lemma_nodes_concat(holds, rest);
        lemma_nodes_behind(forest, stop);
        lemma_walk_finds_located(next, forest[stop].children, forest.skip(stop + 1));
        let back = forest.skip(stop);
        assert(forest =~= front + back);
        lemma_located_concat(front, back, patterns);
        lemma_located_concat(forest[stop].children, forest.skip(stop + 1), patterns);
        assert(back.skip(1) =~= forest.skip(stop + 1));
        assert(located(back, patterns) == located(behind, patterns));
        assert(found + located(behind, patterns) =~= walk.found + located(forest, patterns));
    } else {
        assert(front =~= forest);
        assert(next == ScanView::Done { paths: found });
    }
}

/// A walk from the root of a tree, fed the listings of that tree, ends
/// with the paths found in the tree.
pub proof fn lemma_walk_of_tree(root: Tree, patterns: Seq<Seq<char>>)
    ensures
        outcome(started(root.entry.path, root.entry.kind, patterns), root.children, Seq::empty())
            == (ScanView::Done { paths: icon_paths(root, patterns) }),
{
    let scan = started(root.entry.path, root.entry.kind, patterns);
    if root.entry.kind is Directory {
        assert(roots(Seq::<Tree>::empty()) =~= Seq::<EntryView>::empty());
        lemma_walk_finds_located(scan, root.children, Seq::empty());
        assert(root.children + Seq::<Tree>::empty() =~= root.children);
        assert(Seq::<Seq<char>>::empty() + located(root.children, patterns) =~= located(
            root.children,
            patterns,
        ));
    }
}

/// What is found among two runs of entries put together is what is found
/// among the one, followed by what is found among the other.
pub proof fn lemma_listed_concat(
    front: Seq<EntryView>,
    back: Seq<EntryView>,
    patterns: Seq<Seq<char>>,
)
    ensures
        listed(front + back, patterns) == listed(front, patterns) + listed(back, patterns),
    decreases front.len(),
{
    if front.len() == 0 {
        assert(front + back =~= back);
        assert(listed(front, patterns) + listed(back, patterns) =~= listed(back, patterns));
    } else {
        lemma_listed_concat(front.skip(1), back, patterns);
        assert((front + back).skip(1) =~= front.skip(1) + back);
        if front[0].kind is File {
            let first = hits(front[0], patterns);
            assert(first + (listed(front.skip(1), patterns) + listed(back, patterns)) =~= (first
                + listed(front.skip(1), patterns)) + listed(back, patterns));
        }
    }
}

/// Every entry of `files(forest)` is a file.
pub proof fn lemma_files_are_files(forest: Seq<Tree>)
    ensures
        forall|i: int| 0 <= i < files(forest).len() ==> files(forest)[i].kind is File,
    decreases forest,
{
    if forest.len() > 0 {
        let first = forest[0];
        lemma_files_are_files(forest.skip(1));
        if first.entry.kind is Directory {
            lemma_files_are_files(first.children);
        }
    }
}

/// What is found in a forest is the hits of its files, file by file in the
/// order of the walk.
pub proof fn lemma_located_lists_files(forest: Seq<Tree>, patterns: Seq<Seq<char>>)
    ensures
        located(forest, patterns) == listed(files(forest), patterns),
    decreases forest,
{
    if forest.len() > 0 {
        let first = forest[0];
        let rest = forest.skip(1);
        lemma_located_lists_files(rest, patterns);
        match first.entry.kind {
            EntryKind::Directory => {
                lemma_located_lists_files(first.children, patterns);
                lemma_listed_concat(files(first.children), files(rest), patterns);
            },
            EntryKind::File => {
                let alone = seq![first.entry];
                lemma_listed_concat(alone, files(rest), patterns);
                assert(alone.skip(1) =~= Seq::<EntryView>::empty());
                assert(listed(alone.skip(1), patterns) == Seq::<Seq<char>>::empty());
                assert(alone[0] == first.entry);
                assert(listed(alone, patterns) == hits(first.entry, patterns) + listed(
                    alone.skip(1),
                    patterns,
                ));
                assert(hits(first.entry, patterns) + Seq::<Seq<char>>::empty() =~= hits(
                    first.entry,
                    patterns,
                ));
            },
            EntryKind::Other => {
                assert(Seq::<EntryView>::empty() + files(rest) =~= files(rest));
                assert(Seq::<Seq<char>>::empty() + listed(files(rest), patterns) =~= listed(
                    files(rest),
                    patterns,
                ));
            },
        }
    }
}

/// A name is matched at least once just where one of the patterns stands
/// in it.
pub proof fn lemma_match_count_positive(name: Seq<char>, patterns: Seq<Seq<char>>)
    ensures
        match_count(name, patterns) > 0 <==> wanted(name, patterns),
{
    let stands = |pattern: Seq<char>| occurs_in(name, pattern);
    let kept = patterns.filter(stands);
    if kept.len() > 0 {
        patterns.lemma_filter_pred(stands, 0);
        patterns.lemma_filter_contains_rev(stands, kept[0]);
        let j = choose|j: int| 0 <= j < patterns.len() && patterns[j] == kept[0];
        assert(stands(patterns[j]));
    }
    if wanted(name, patterns) {
        let j = choose|j: int| 0 <= j < patterns.len() && occurs_in(name, #[trigger] patterns[j]);
        patterns.lemma_filter_contains(stands, j);
    }
}

/// How often `path` is found among `entries`: the matches of every file
/// among them that has this path, added up.
pub open spec fn times_found(
    entries: Seq<EntryView>,
    patterns: Seq<Seq<char>>,
    path: Seq<char>,
) -> nat
    decreases entries.len(),
{
    if entries.len() == 0 {
        0
    } else if entries[0].kind is File && entries[0].path == path {
        match_count(entries[0].name, patterns) + times_found(entries.skip(1), patterns, path)
    } else {
        times_found(entries.skip(1), patterns, path)
    }
}

/// A path repeated holds that path as often as it is repeated, and no
/// other.
proof fn lemma_repeated_count(path: Seq<char>, times: nat, other: Seq<char>)
    ensures
        Seq::new(times, |i: int| path).to_multiset().count(other) == if other == path {
            times
        } else {
            0
        },
    decreases times,
{
    broadcast use vstd::multiset::group_multiset_axioms;

    let all = Seq::new(times, |i: int| path);
    if times == 0 {
        assert(all =~= Seq::empty());
        assert(all.to_multiset() =~= vstd::multiset::Multiset::empty()) by {
            all.to_multiset_ensures();
        }
    } else {
        let fewer = Seq::new((times - 1) as nat, |i: int| path);
        lemma_repeated_count(path, (times - 1) as nat, other);
        assert(all =~= fewer.push(path));
        fewer.to_multiset_ensures();
    }
}

/// Every path is among the paths found as often as the patterns match the
/// names of the files that have this path.
pub proof fn lemma_listed_count(
    entries: Seq<EntryView>,
    patterns: Seq<Seq<char>>,
    path: Seq<char>,
)
    ensures
        listed(entries, patterns).to_multiset().count(path) == times_found(
            entries,
            patterns,
            path,
        ),
    decreases entries.len(),
{
    broadcast use vstd::multiset::group_multiset_axioms;

    if entries.len() == 0 {
        assert(listed(entries, patterns).to_multiset() =~= vstd::multiset::Multiset::empty()) by {
            listed(entries, patterns).to_multiset_ensures();
        }
    } else {
        lemma_listed_count(entries.skip(1), patterns, path);
        if entries[0].kind is File {
            lemma_multiset_commutative(
                hits(entries[0], patterns),
                listed(entries.skip(1), patterns),
            );
            lemma_repeated_count(
                entries[0].path,
                match_count(entries[0].name, patterns),
                path,
            );
        }
    }
}

/// A path is found at least once just where it is the path of a file
/// among the entries whose name holds one of the patterns.
pub proof fn lemma_times_found_positive(
    entries: Seq<EntryView>,
    patterns: Seq<Seq<char>>,
    path: Seq<char>,
)
    ensures
        times_found(entries, patterns, path) > 0 <==> exists|i: int|
            0 <= i < entries.len() && (#[trigger] entries[i]).kind is File && entries[i].path
                == path && wanted(entries[i].name, patterns),
    decreases entries.len(),
{
    let holds = |e: EntryView| e.kind is File && e.path == path && wanted(e.name, patterns);
    if entries.len() > 0 {
        let rest = entries.skip(1);
        lemma_times_found_positive(rest, patterns, path);
        lemma_match_count_positive(entries[0].name, patterns);
        if times_found(entries, patterns, path) > 0 {
            if holds(entries[0]) {
            } else {
                let i = choose|i: int|
                    0 <= i < rest.len() && (#[trigger] rest[i]).kind is File && rest[i].path
                        == path && wanted(rest[i].name, patterns);
                assert(holds(entries[i + 1]));
            }
        }
        if exists|i: int|
            0 <= i < entries.len() && (#[trigger] entries[i]).kind is File && entries[i].path
                == path && wanted(entries[i].name, patterns) {
            let i = choose|i: int|
                0 <= i < entries.len() && (#[trigger] entries[i]).kind is File && entries[i].path
                    == path && wanted(entries[i].name, patterns);
            if i > 0 {
                assert(holds(rest[i - 1]));
            }
        }
    }
}

/// The paths found in a forest are exactly the paths of the files in it
/// whose name holds one of the patterns, and each path is found as often
/// as the patterns match the names of the files that have it.
pub proof fn lemma_located_exactly(forest: Seq<Tree>, patterns: Seq<Seq<char>>, path: Seq<char>)
    ensures
        located(forest, patterns).contains(path) <==> exists|i: int|
            0 <= i < files(forest).len() && (#[trigger] files(forest)[i]).path == path && wanted(
                files(forest)[i].name,
                patterns,
            ),
        located(forest, patterns).to_multiset().count(path) == times_found(
            files(forest),
            patterns,
            path,
        ),
{
    lemma_located_lists_files(forest, patterns);
    lemma_listed_count(files(forest), patterns, path);
    lemma_files_are_files(forest);
    lemma_times_found_positive(files(forest), patterns, path);
    located(forest, patterns).to_multiset_ensures();
}

/// Where no other file of the forest has the path of the file at `at`, that
/// path is found as often as there are patterns that stand in the file's
/// name.
pub proof fn lemma_located_count_of_file(forest: Seq<Tree>, patterns: Seq<Seq<char>>, at: int)
    requires
        0 <= at < files(forest).len(),
        forall|i: int|
            0 <= i < files(forest).len() && i != at ==> (#[trigger] files(forest)[i]).path
                != files(forest)[at].path,
    ensures
        located(forest, patterns).to_multiset().count(files(forest)[at].path) == match_count(
            files(forest)[at].name,
            patterns,
        ),
{
    lemma_located_exactly(forest, patterns, files(forest)[at].path);
    lemma_files_are_files(forest);
    lemma_times_found_of_one(files(forest), patterns, at);
}

/// Among entries of which only the file at `at` has its path, that path is
/// found as often as the file's name is matched.
proof fn lemma_times_found_of_one(entries: Seq<EntryView>, patterns: Seq<Seq<char>>, at: int)
    requires
        0 <= at < entries.len(),
        entries[at].kind is File,
        forall|i: int|
            0 <= i < entries.len() && i != at ==> (#[trigger] entries[i]).path != entries[at].path,
    ensures
        times_found(entries, patterns, entries[at].path) == match_count(
            entries[at].name,
            patterns,
        ),
    decreases entries.len(),
{
    let rest = entries.skip(1);
    let path = entries[at].path;
    if at == 0 {
        assert forall|i: int| 0 <= i < rest.len() implies (#[trigger] rest[i]).path != path by {
            assert(rest[i] == entries[i + 1]);
        }
        lemma_times_found_absent(rest, patterns, path);
    } else {
        assert(rest[at - 1] == entries[at]);
        assert forall|i: int| 0 <= i < rest.len() && i != at - 1 implies (#[trigger] rest[i]).path
            != rest[at - 1].path by {
            assert(rest[i] == entries[i + 1]);
        }
        lemma_times_found_of_one(rest, patterns, at - 1);
        assert(entries[0].path != path);
    }
}

/// A path that no entry has is not found.
proof fn lemma_times_found_absent(
    entries: Seq<EntryView>,
    patterns: Seq<Seq<char>>,
    path: Seq<char>,
)
    requires
        forall|i: int| 0 <= i < entries.len() ==> (#[trigger] entries[i]).path != path,
    ensures
        times_found(entries, patterns, path) == 0,
    decreases entries.len(),
{
    if entries.len() > 0 {
        let rest = entries.skip(1);
        assert forall|i: int| 0 <= i < rest.len() implies (#[trigger] rest[i]).path != path by {
            assert(rest[i] == entries[i + 1]);
        }
        lemma_times_found_absent(rest, patterns, path);
        assert(entries[0].path != path);
    }
}

} // verus!
