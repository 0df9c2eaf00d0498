//! The walk through an icon theme's directories.
//!
//! The walk reads no directory itself. It says which directory it wants
//! listed next, takes the listing, and goes on: into each directory before
//! the entries that follow it, collecting the path of each file once for
//! every pattern that stands in the file's name.

use crate::text::{chars_of, find_from, occurs_in};
use vstd::prelude::*;

verus! {

/// What a directory entry is.
#[derive(Clone, Copy, Debug, PartialEq, Eq, Structural)]
pub enum EntryKind {
    /// A directory, to be walked in its turn.
    Directory,
    /// A regular file, whose name is held against the patterns.
    File,
    /// Anything else. It is passed over.
    Other,
}

/// One entry of a directory listing.
#[derive(Debug)]
pub struct Entry {
    /// The entry's own name, without the directories above it.
    pub name: String,
    /// The entry's full path.
    pub path: String,
    pub kind: EntryKind,
}

/// An entry as contracts see it.
pub struct EntryView {
    pub name: Seq<char>,
    pub path: Seq<char>,
    pub kind: EntryKind,
}

impl View for Entry {
    type V = EntryView;

    open spec fn view(&self) -> EntryView {
        EntryView { name: self.name@, path: self.path@, kind: self.kind }
    }
}

/// The views of `entries`, in their order.
pub open spec fn entry_views(entries: Seq<Entry>) -> Seq<EntryView> {
    Seq::new(entries.len(), |i: int| entries[i]@)
}

/// The texts of `strings`, in their order.
pub open spec fn texts(strings: Seq<String>) -> Seq<Seq<char>> {
    Seq::new(strings.len(), |i: int| strings[i]@)
}

/// The character sequences of `rows`, in their order.
pub open spec fn rows_of(rows: Seq<Vec<char>>) -> Seq<Seq<char>> {
    Seq::new(rows.len(), |i: int| rows[i]@)
}

/// One of the patterns stands in `name`.
pub open spec fn wanted(name: Seq<char>, patterns: Seq<Seq<char>>) -> bool {
    exists|j: int| 0 <= j < patterns.len() && occurs_in(name, #[trigger] patterns[j])
}

/// The number of patterns that stand in `name`.
pub open spec fn match_count(name: Seq<char>, patterns: Seq<Seq<char>>) -> nat {
    patterns.filter(|pattern: Seq<char>| occurs_in(name, pattern)).len()
}

/// What one file adds to the paths found: its path, once for every pattern
/// that stands in its name.
pub open spec fn hits(file: EntryView, patterns: Seq<Seq<char>>) -> Seq<Seq<char>> {
    Seq::new(match_count(file.name, patterns), |i: int| file.path)
}

/// The paths found among `entries` themselves, in their order: each file
/// adds its hits, and no other entry adds anything.
pub open spec fn listed(entries: Seq<EntryView>, patterns: Seq<Seq<char>>) -> Seq<Seq<char>>
    decreases entries.len(),
{
    if entries.len() == 0 {
        Seq::empty()
    } else if entries[0].kind is File {
        hits(entries[0], patterns) + listed(entries.skip(1), patterns)
    } else {
        listed(entries.skip(1), patterns)
    }
}

/// The index of the first directory among `entries`, or their number where
/// none of them is a directory.
pub open spec fn first_directory(entries: Seq<EntryView>) -> int
    decreases entries.len(),
{
    if entries.len() == 0 || entries[0].kind is Directory {
        0
    } else {
        1 + first_directory(entries.skip(1))
    }
}

/// Counts the patterns that stand in `name`.
pub fn count_matches(name: &Vec<char>, patterns: &Vec<Vec<char>>) -> (count: usize)
    ensures
        count == match_count(name@, rows_of(patterns@)),
{
    let ghost stands = |pattern: Seq<char>| occurs_in(name@, pattern);
    let mut count: usize = 0;
    let mut i: usize = 0;
    proof {
        assert(rows_of(patterns@).take(0) =~= Seq::empty());
        assert(Seq::<Seq<char>>::empty().filter(stands).len() == 0) by {
            Seq::<Seq<char>>::empty().lemma_filter_len(stands);
        }
    }
    while i < patterns.len()
        invariant
            i <= patterns.len(),
            count <= i,
            stands == |pattern: Seq<char>| occurs_in(name@, pattern),
            count == rows_of(patterns@).take(i as int).filter(stands).len(),
        decreases patterns.len() - i,
    {
        let found = find_from(name, &patterns[i], 0);
        proof {
            let done = rows_of(patterns@).take(i as int);
            assert(rows_of(patterns@).take(i + 1) =~= done.push(patterns[i as int]@));
            done.lemma_filter_len_push(stands, patterns[i as int]@);
            assert(found.is_some() == occurs_in(name@, patterns[i as int]@));
        }
        if found.is_some() {
            count += 1;
        }
        i += 1;
    }
    proof {
        assert(rows_of(patterns@).take(i as int) =~= rows_of(patterns@));
    }
    count
}

/// What came of reading a directory.
#[derive(Debug)]
pub enum Listing {
    /// The directory's entries, in the order in which they were read.
    Entries(Vec<Entry>),
    /// The directory, or one of its entries, could not be read.
    Unreadable,
}

/// A listing as contracts see it.
pub enum ListingView {
    Entries(Seq<EntryView>),
    Unreadable,
}

impl View for Listing {
    type V = ListingView;

    open spec fn view(&self) -> ListingView {
        match self {
            Listing::Entries(entries) => ListingView::Entries(entry_views(entries@)),
            Listing::Unreadable => ListingView::Unreadable,
        }
    }
}

/// What a walk holds between two listings: the patterns, the entries it
/// has seen and not yet dealt with, and the paths found so far.
#[derive(Debug)]
pub struct Walk {
    patterns: Vec<Vec<char>>,
    /// The entries still to deal with; the next one is the last.
    pending: Vec<Entry>,
    found: Vec<String>,
}

/// A walk as contracts see it.
pub struct WalkView {
    pub patterns: Seq<Seq<char>>,
    /// The entries still to deal with; the next one is the first.
    pub pending: Seq<EntryView>,
    pub found: Seq<Seq<char>>,
}

/// The views of `entries` from the last to the first.
pub open spec fn stacked(entries: Seq<Entry>) -> Seq<EntryView> {
    Seq::new(entries.len(), |i: int| entries[entries.len() - 1 - i]@)
}

impl View for Walk {
    type V = WalkView;

    closed spec fn view(&self) -> WalkView {
        WalkView {
            patterns: rows_of(self.patterns@),
            pending: stacked(self.pending@),
            found: texts(self.found@),
        }
    }
}

/// A walk through a directory tree, at rest between two steps.
#[derive(Debug)]
pub enum Scan {
    /// The walk asks for the listing of `directory`.
    Reading { directory: String, walk: Walk },
    /// The walk is over. `paths` holds what it found, in the order of the walk.
    Done { paths: Vec<String> },
    /// The walk was given up, because `directory` could not be read.
    Failed { directory: String },
}

/// A scan as contracts see it.
pub enum ScanView {
    Reading { directory: Seq<char>, walk: WalkView },
    Done { paths: Seq<Seq<char>> },
    Failed { directory: Seq<char> },
}

impl View for Scan {
    type V = ScanView;

    open spec fn view(&self) -> ScanView {
        match self {
            Scan::Reading { directory, walk } => ScanView::Reading {
                directory: directory@,
                walk: walk@,
            },
            Scan::Done { paths } => ScanView::Done { paths: texts(paths@) },
            Scan::Failed { directory } => ScanView::Failed { directory: directory@ },
        }
    }
}

/// Where a walk comes to rest: it deals with its pending entries up to the
/// first directory among them, and asks for that directory; where there is
/// none, it is over.
pub open spec fn settled(walk: WalkView) -> ScanView {
    let stop = first_directory(walk.pending);
    let found = walk.found + listed(walk.pending.take(stop), walk.patterns);
    if stop < walk.pending.len() {
        ScanView::Reading {
            directory: walk.pending[stop].path,
            walk: WalkView {
                patterns: walk.patterns,
                pending: walk.pending.skip(stop + 1),
                found,
            },
        }
    } else {
        ScanView::Done { paths: found }
    }
}

/// The state that follows `scan` when the directory it asked for was listed
/// as `listing` says. The entries of a listing come before those that were
/// pending. A listing that could not be read ends the walk, and what was
/// found until then is given up. A scan that asked for nothing stays as it
/// is.
pub open spec fn advanced(scan: ScanView, listing: ListingView) -> ScanView {
    match scan {
        ScanView::Reading { directory, walk } => match listing {
            ListingView::Entries(entries) => settled(
                WalkView {
                    patterns: walk.patterns,
                    pending: entries + walk.pending,
                    found: walk.found,
                },
            ),
            ListingView::Unreadable => ScanView::Failed { directory },
        },
        _ => scan,
    }
}

/// The state a walk begins in: it asks for `root` where that is a
/// directory, and is over at once, with nothing found, where it is not.
pub open spec fn started(root: Seq<char>, kind: EntryKind, patterns: Seq<Seq<char>>) -> ScanView {
    if kind is Directory {
        ScanView::Reading {
            directory: root,
            walk: WalkView { patterns, pending: Seq::empty(), found: Seq::empty() },
        }
    } else {
        ScanView::Done { paths: Seq::empty() }
    }
}

/// Dealing with a pending file first, and then coming to rest, is coming to
/// rest at once.
proof fn lemma_settled_behind_file(walk: WalkView)
    requires
        walk.pending.len() > 0,
        walk.pending[0].kind is File,
    ensures
        settled(walk) == settled(
            WalkView {
                patterns: walk.patterns,
                pending: walk.pending.skip(1),
                found: walk.found + hits(walk.pending[0], walk.patterns),
            },
        ),
{
    let rest = walk.pending.skip(1);
    let stop = first_directory(rest);
    lemma_first_directory_bounds(rest);
    let head = walk.pending.take(stop + 1);
    assert(head.skip(1) =~= rest.take(stop));
    if stop < rest.len() {
        assert(walk.pending.skip(stop + 2) =~= rest.skip(stop + 1));
    }
    assert(walk.found + (hits(walk.pending[0], walk.patterns) + listed(
        rest.take(stop),
        walk.patterns,
    )) =~= (walk.found + hits(walk.pending[0], walk.patterns)) + listed(
        rest.take(stop),
        walk.patterns,
    ));
}

/// Passing over a pending entry that is neither file nor directory, and
/// then coming to rest, is coming to rest at once.
proof fn lemma_settled_behind_other(walk: WalkView)
    requires
        walk.pending.len() > 0,
        walk.pending[0].kind is Other,
    ensures
        settled(walk) == settled(
            WalkView {
                patterns: walk.patterns,
                pending: walk.pending.skip(1),
                found: walk.found,
            },
        ),
{
    let rest = walk.pending.skip(1);
    let stop = first_directory(rest);
    lemma_first_directory_bounds(rest);
    let head = walk.pending.take(stop + 1);
    assert(head.skip(1) =~= rest.take(stop));
    if stop < rest.len() {
        assert(walk.pending.skip(stop + 2) =~= rest.skip(stop + 1));
    }
}

/// The first directory stands within the entries, or its index is their
/// number; no entry in front of it is a directory.
pub proof fn lemma_first_directory_bounds(entries: Seq<EntryView>)
    ensures
        0 <= first_directory(entries) <= entries.len(),
        first_directory(entries) < entries.len() ==> entries[first_directory(
            entries,
        )].kind is Directory,
        forall|i: int| 0 <= i < first_directory(entries) ==> !(entries[i].kind is Directory),
    decreases entries.len(),
{
    if entries.len() == 0 || entries[0].kind is Directory {
    } else {
        let rest = entries.skip(1);
        lemma_first_directory_bounds(rest);
        assert forall|i: int| 0 <= i < first_directory(entries) implies !(entries[i].kind
            is Directory) by {
            if i > 0 {
                assert(entries[i] == rest[i - 1]);
            }
        }
    }
}

impl Walk {
    /// Puts the entries of a listing in front of the pending ones.
    fn queue(&mut self, entries: Vec<Entry>)
        ensures
            final(self)@ == (WalkView {
                patterns: old(self)@.patterns,
                pending: entry_views(entries@) + old(self)@.pending,
                found: old(self)@.found,
            }),
    {
        let ghost listing = entries@;
        let ghost before = self.pending@;
        let mut entries = entries;
        proof {
            assert(entry_views(listing.skip(listing.len() as int)) + stacked(before) =~= stacked(
                before,
            ));
        }
        while entries.len() > 0
            invariant
                entries@ == listing.take(entries.len() as int),
                entries.len() <= listing.len(),
                self.patterns == old(self).patterns,
                self.found == old(self).found,
                stacked(self.pending@) == entry_views(listing.skip(entries.len() as int))
                    + stacked(before),
            decreases entries.len(),
        {
            let ghost pending = self.pending@;
            let ghost left = entries.len() as int;
            let entry = entries.pop().unwrap();
            self.pending.push(entry);
            proof {
                assert(entry == listing[left - 1]);
                assert(entries@ =~= listing.take(left - 1));
                assert(stacked(pending.push(entry)) =~= seq![entry@] + stacked(pending));
                assert(seq![entry@] + (entry_views(listing.skip(left)) + stacked(before))
                    =~= entry_views(listing.skip(left - 1)) + stacked(before));
            }
        }
        proof {
            assert(listing.skip(0) =~= listing);
        }
    }

    /// Deals with the pending entries until a directory has to be read or
    /// none is left.
    fn settle(self) -> (scan: Scan)
        ensures
            scan@ == settled(self@),
    {
        let mut walk = self;
        loop
            invariant
                settled(walk@) == settled(self@),
            decreases walk.pending.len(),
        {
            let ghost before = walk@;
            match walk.pending.pop() {
                None => {
                    proof {
                        assert(before.pending.take(0) =~= Seq::empty());
                        assert(before.found + Seq::empty() =~= before.found);
                    }
                    return Scan::Done { paths: walk.found };
                },
                Some(entry) => {
                    proof {
                        assert(before.pending[0] == entry@);
                        assert(stacked(walk.pending@) =~= before.pending.skip(1));
                    }
                    match entry.kind {
                        EntryKind::Directory => {
                            proof {
                                assert(before.pending.take(0) =~= Seq::empty());
                                assert(before.found + Seq::empty() =~= before.found);
                            }
                            return Scan::Reading { directory: entry.path, walk };
                        },
                        EntryKind::File => {
                            let name = chars_of(entry.name.as_str());
                            let count = count_matches(&name, &walk.patterns);
                            let ghost found = walk.found@;
                            let ghost patterns = walk.patterns@;
                            let ghost stack = walk.pending@;
                            let mut added: usize = 0;
                            proof {
                                assert(texts(found) + Seq::new(0, |i: int| entry.path@) =~= texts(
                                    found,
                                ));
                            }
                            while added < count
                                invariant
                                    added <= count,
                                    walk.patterns@ == patterns,
                                    walk.pending@ == stack,
                                    texts(walk.found@) == texts(found) + Seq::new(
                                        added as nat,
                                        |i: int| entry.path@,
                                    ),
                                decreases count - added,
                            {
                                let ghost so_far = walk.found@;
                                walk.found.push(entry.path.clone());
                                proof {
                                    assert(texts(walk.found@) =~= texts(so_far).push(entry.path@));
                                    assert(Seq::new((added + 1) as nat, |i: int| entry.path@)
                                        =~= Seq::new(added as nat, |i: int| entry.path@).push(
                                        entry.path@,
                                    ));
                                }
                                added += 1;
                            }
                            proof {
                                assert(hits(entry@, before.patterns) =~= Seq::new(
                                    count as nat,
                                    |i: int| entry.path@,
                                ));
                                lemma_settled_behind_file(before);
                            }
                        },
                        EntryKind::Other => {
                            proof {
                                lemma_settled_behind_other(before);
                            }
                        },
                    }
                },
            }
        }
    }
}

impl Scan {
    /// Goes on with the walk, given the listing of the directory it asked
    /// for.
    pub fn advance(self, listing: Listing) -> (scan: Scan)
        ensures
            scan@ == advanced(self@, listing@),
    {
        match self {
            Scan::Reading { directory, walk } => match listing {
                Listing::Entries(entries) => {
                    let mut walk = walk;
                    walk.queue(entries);
                    walk.settle()
                },
                Listing::Unreadable => Scan::Failed { directory },
            },
            Scan::Done { paths } => Scan::Done { paths },
            Scan::Failed { directory } => Scan::Failed { directory },
        }
    }
}

/// Begins the search below `dir_path`, which is of kind `kind`, for the
/// files whose names hold one of the names in `icon_list`. The scan that
/// comes back says which directory to list first; `Scan::advance` takes
/// each listing.
pub fn find_icon_paths(dir_path: &str, kind: EntryKind, icon_list: &Vec<String>) -> (scan: Scan)
    ensures
        scan@ == started(dir_path@, kind, texts(icon_list@)),
{
    match kind {
        EntryKind::Directory => {
            let mut rows: Vec<Vec<char>> = Vec::new();
            let mut i: usize = 0;
            while i < icon_list.len()
                invariant
                    i <= icon_list.len(),
                    rows_of(rows@) == texts(icon_list@).take(i as int),
                decreases icon_list.len() - i,
            {
                let ghost so_far = rows@;
                rows.push(chars_of(icon_list[i].as_str()));
                proof {
                    assert(rows_of(rows@) =~= rows_of(so_far).push(icon_list[i as int]@));
                    assert(texts(icon_list@).take(i + 1) =~= texts(icon_list@).take(
                        i as int,
                    ).push(icon_list[i as int]@));
                }
                i += 1;
            }
            let walk = Walk { patterns: rows, pending: Vec::new(), found: Vec::new() };
            proof {
                assert(texts(icon_list@).take(i as int) =~= texts(icon_list@));
                assert(stacked(walk.pending@) =~= Seq::empty());
                assert(texts(walk.found@) =~= Seq::empty());
            }
            Scan::Reading { directory: String::from_str(dir_path), walk }
        },
        _ => {
            let paths: Vec<String> = Vec::new();
            proof {
                assert(texts(paths@) =~= Seq::empty());
            }
            Scan::Done { paths }
        },
    }
}

/// A directory without entries: the walk that asked for it alone is over,
/// with nothing found.
pub proof fn lemma_empty_directory(root: Seq<char>, patterns: Seq<Seq<char>>)
    ensures
        advanced(
            started(root, EntryKind::Directory, patterns),
            ListingView::Entries(Seq::empty()),
        ) == (ScanView::Done { paths: Seq::empty() }),
{
    let pending = Seq::<EntryView>::empty() + Seq::<EntryView>::empty();
    assert(pending =~= Seq::empty());
    assert(pending.take(0) =~= Seq::empty());
    assert(Seq::<Seq<char>>::empty() + listed(pending.take(0), patterns) =~= Seq::empty());
}

} // verus!
