//! The sweep for staging files that a crash between a staged write and its
//! rename left behind.

use vstd::prelude::*;
use crate::filename;
use crate::filename::has_extension;
use crate::text;
use crate::text::decimal_text;

verus! {

/// Whether a file is a staging file.
pub open spec fn is_staging(name: Seq<char>) -> bool {
    filename::extension(name) == Some("tmp"@)
}

/// A walk over a store: the directories still to be listed, and the staging
/// files met so far.
pub struct LitterWalk<P> {
    pub pending: Vec<P>,
    pub litter: u64,
}

/// A walk, with its directories as a sequence.
#[verifier::ext_equal]
pub struct WalkView<P> {
    pub pending: Seq<P>,
    pub litter: nat,
}

/// One entry of a listed directory.
pub struct EntryView<P> {
    pub path: P,
    pub name: Seq<char>,
    pub is_dir: bool,
}

impl<P> View for LitterWalk<P> {
    type V = WalkView<P>;

    open spec fn view(&self) -> WalkView<P> {
        WalkView { pending: self.pending@, litter: self.litter as nat }
    }
}

impl<P> WalkView<P> {
    /// The walk after meeting an entry: a directory is listed later, a staging
    /// file is counted, anything else is passed over.
    pub open spec fn after_entry(self, entry: EntryView<P>) -> WalkView<P> {
        if entry.is_dir {
            WalkView { pending: self.pending.push(entry.path), ..self }
        } else if is_staging(entry.name) {
            WalkView { litter: self.litter + 1, ..self }
        } else {
            self
        }
    }

    /// The walk after meeting the entries of a directory.
    pub open spec fn after_entries(self, entries: Seq<EntryView<P>>) -> WalkView<P>
        decreases entries.len(),
    {
        if entries.len() == 0 {
            self
        } else {
            self.after_entries(entries.drop_last()).after_entry(entries.last())
        }
    }

    /// The walk after taking the next directory and meeting its entries.
    pub open spec fn after_dir(self, listing: spec_fn(P) -> Seq<EntryView<P>>) -> WalkView<P> {
        WalkView { pending: self.pending.drop_last(), ..self }.after_entries(
            listing(self.pending.last()),
        )
    }
}

impl<P> LitterWalk<P> {
    /// A walk that starts at `root`.
    pub fn new(root: P) -> (r: Self)
        ensures
            r@ == (WalkView { pending: seq![root], litter: 0 }),
    {
        let mut pending: Vec<P> = Vec::new();
        pending.push(root);
        let r = LitterWalk { pending, litter: 0 };
        assert(r@ =~= WalkView { pending: seq![root], litter: 0 });
        r
    }

    /// Takes the directory to list next: the one met last.
    pub fn next_dir(&mut self) -> (r: Option<P>)
        ensures
            match r {
                Some(dir) => {
                    &&& old(self)@.pending.len() > 0
                    &&& dir == old(self)@.pending.last()
                    &&& final(self)@ == (WalkView {
                        pending: old(self)@.pending.drop_last(),
                        ..old(self)@
                    })
                },
                None => old(self)@.pending.len() == 0 && final(self)@ == old(self)@,
            },
    {
        let r = self.pending.pop();
        proof {
            if r is Some {
                assert(self.pending@ =~= old(self)@.pending.drop_last());
            } else {
                assert(self.pending@ =~= old(self)@.pending);
            }
        }
        r
    }

    /// Meets one entry of the directory that was taken.
    pub fn entry(&mut self, path: P, name: &str, is_dir: bool)
        requires
            !is_dir && is_staging(name@) ==> old(self).litter < u64::MAX,
        ensures
            final(self)@ == old(self)@.after_entry(EntryView { path, name: name@, is_dir }),
    {
        if is_dir {
            self.pending.push(path);
        } else if has_extension(name, "tmp") {
            self.litter = self.litter + 1;
        }
        assert(self@ =~= old(self)@.after_entry(EntryView { path, name: name@, is_dir }));
    }
}

pub open spec fn litter_detail(label: Seq<char>, litter: nat) -> Seq<char> {
    label + ": "@ + text::decimal(litter) + " stranded staging file(s)"@
}

/// The note that a finished sweep leaves: none if it met no staging file.
pub fn litter_note(label: &str, litter: u64) -> (r: Option<String>)
    ensures
        match r {
            Some(note) => litter > 0 && note@ == litter_detail(label@, litter as nat),
            None => litter == 0,
        },
{
    if litter > 0 {
        let mut note = label.to_owned();
        note.append(": ");
        note.append(decimal_text(litter).as_str());
        note.append(" stranded staging file(s)");
        Some(note)
    } else {
        None
    }
}

/// What entries weigh: one for each staging file, and for each directory what
/// lies under it.
pub open spec fn entries_weight<P>(entries: Seq<EntryView<P>>, under: spec_fn(P) -> nat) -> nat
    decreases entries.len(),
{
    if entries.len() == 0 {
        0
    } else {
        let last = entries.last();
        entries_weight(entries.drop_last(), under) + (if last.is_dir {
            under(last.path)
        } else if is_staging(last.name) {
            1
        } else {
            0
        })
    }
}

/// What directories weigh together.
pub open spec fn dirs_weight<P>(dirs: Seq<P>, under: spec_fn(P) -> nat) -> nat
    decreases dirs.len(),
{
    if dirs.len() == 0 {
        0
    } else {
        dirs_weight(dirs.drop_last(), under) + under(dirs.last())
    }
}

/// Whether `under` counts, for every directory, the staging files anywhere
/// below it.
pub open spec fn counts_staging_files<P>(
    listing: spec_fn(P) -> Seq<EntryView<P>>,
    under: spec_fn(P) -> nat,
) -> bool {
    forall|dir: P| #[trigger] under(dir) == entries_weight(listing(dir), under)
}

proof fn lemma_entries_weight_moves<P>(
    walk: WalkView<P>,
    entries: Seq<EntryView<P>>,
    under: spec_fn(P) -> nat,
)
    ensures
        ({
            let after = walk.after_entries(entries);
            after.litter + dirs_weight(after.pending, under) == walk.litter + dirs_weight(
                walk.pending,
                under,
            ) + entries_weight(entries, under)
        }),
    decreases entries.len(),
{
    if entries.len() > 0 {
        let front = walk.after_entries(entries.drop_last());
        lemma_entries_weight_moves(walk, entries.drop_last(), under);
        let last = entries.last();
        if last.is_dir {
            assert(front.pending.push(last.path).drop_last() =~= front.pending);
        }
    }
}

/// Listing a directory neither loses nor invents a staging file: the count so
/// far and what lies below the directories still to be listed stay in sum.
pub proof fn law_walk_keeps_the_total<P>(
    walk: WalkView<P>,
    listing: spec_fn(P) -> Seq<EntryView<P>>,
    under: spec_fn(P) -> nat,
)
    requires
        counts_staging_files(listing, under),
        walk.pending.len() > 0,
    ensures
        walk.after_dir(listing).litter + dirs_weight(walk.after_dir(listing).pending, under)
            == walk.litter + dirs_weight(walk.pending, under),
{
    let dir = walk.pending.last();
    let rest = WalkView { pending: walk.pending.drop_last(), ..walk };
    assert(under(dir) == entries_weight(listing(dir), under));
    lemma_entries_weight_moves(rest, listing(dir), under);
}

/// The walk after listing `steps` directories.
pub open spec fn walked<P>(
    walk: WalkView<P>,
    listing: spec_fn(P) -> Seq<EntryView<P>>,
    steps: nat,
) -> WalkView<P>
    decreases steps,
{
    if steps == 0 {
        walk
    } else {
        walked(walk, listing, (steps - 1) as nat).after_dir(listing)
    }
}

/// A walk from `root` that has run out of directories has counted every staging
/// file below `root`.
pub proof fn law_finished_walk_counts_everything<P>(
    root: P,
    listing: spec_fn(P) -> Seq<EntryView<P>>,
    under: spec_fn(P) -> nat,
    steps: nat,
)
    requires
        counts_staging_files(listing, under),
        forall|k: nat|
            k < steps ==> (#[trigger] walked(
                WalkView { pending: seq![root], litter: 0 },
                listing,
                k,
            )).pending.len() > 0,
        walked(WalkView { pending: seq![root], litter: 0 }, listing, steps).pending.len() == 0,
    ensures
        walked(WalkView { pending: seq![root], litter: 0 }, listing, steps).litter == under(root),
{
    let start = WalkView { pending: seq![root], litter: 0nat };
    lemma_walk_total(start, listing, under, steps);
    assert(seq![root].drop_last() =~= Seq::<P>::empty());
    reveal_with_fuel(dirs_weight, 2);
    assert(dirs_weight(seq![root], under) == under(root));
}

proof fn lemma_walk_total<P>(
    start: WalkView<P>,
    listing: spec_fn(P) -> Seq<EntryView<P>>,
    under: spec_fn(P) -> nat,
    steps: nat,
)
    requires
        counts_staging_files(listing, under),
        forall|k: nat| k < steps ==> (#[trigger] walked(start, listing, k)).pending.len() > 0,
    ensures
        walked(start, listing, steps).litter + dirs_weight(
            walked(start, listing, steps).pending,
            under,
        ) == start.litter + dirs_weight(start.pending, under),
    decreases steps,
{
    if steps > 0 {
        let k = (steps - 1) as nat;
        lemma_walk_total(start, listing, under, k);
        law_walk_keeps_the_total(walked(start, listing, k), listing, under);
    }
}

/// A staging file is one whose name ends in `.tmp`, with something before.
pub proof fn law_staging_files(name: Seq<char>)
    ensures
        is_staging(name) <==> name.len() > 4 && name.skip(name.len() - 4) == ".tmp"@,
{
    reveal_strlit("tmp");
    reveal_strlit(".tmp");
    assert(!"tmp"@.contains('.'));
    assert(seq!['.'] + "tmp"@ =~= ".tmp"@);
    filename::law_extension_is_an_ending(name, "tmp"@);
}

/// Meeting the entries of a directory counts each file among them whose name ends
/// in `.tmp` and no directory, whatever its name; and it sets aside the
/// directories among them, in order, behind those that were set aside before.
pub proof fn law_entries_are_sorted_out<P>(walk: WalkView<P>, entries: Seq<EntryView<P>>)
    ensures
        walk.after_entries(entries).litter == walk.litter + entries.filter(
            |e: EntryView<P>|
                !e.is_dir && e.name.len() > 4 && e.name.skip(e.name.len() - 4) == ".tmp"@,
        ).len(),
        walk.after_entries(entries).pending == walk.pending + entries.filter_map(
            |e: EntryView<P>|
                if e.is_dir {
                    Some(e.path)
                } else {
                    None
                },
        ),
    decreases entries.len(),
{
    reveal(Seq::filter);
    let after = walk.after_entries(entries);
    let dirs = |e: EntryView<P>|
        if e.is_dir {
            Some(e.path)
        } else {
            None
        };
    if entries.len() > 0 {
        let front = entries.drop_last();
        law_entries_are_sorted_out(walk, front);
        law_staging_files(entries.last().name);
        assert(after.pending =~= walk.pending + entries.filter_map(dirs));
    } else {
        assert(after.pending =~= walk.pending + entries.filter_map(dirs));
    }
}

/// What lies below a directory is counted alike: its own staging files, and what
/// lies below its directories.
pub proof fn law_weight_is_files_and_directories<P>(
    entries: Seq<EntryView<P>>,
    under: spec_fn(P) -> nat,
)
    ensures
        entries_weight(entries, under) == entries.filter(
            |e: EntryView<P>|
                !e.is_dir && e.name.len() > 4 && e.name.skip(e.name.len() - 4) == ".tmp"@,
        ).len() + dirs_weight(
            entries.filter_map(
                |e: EntryView<P>|
                    if e.is_dir {
                        Some(e.path)
                    } else {
                        None
                    },
            ),
            under,
        ),
    decreases entries.len(),
{
    reveal(Seq::filter);
    let dirs = |e: EntryView<P>|
        if e.is_dir {
            Some(e.path)
        } else {
            None
        };
    if entries.len() > 0 {
        let front = entries.drop_last();
        law_weight_is_files_and_directories(front, under);
        law_staging_files(entries.last().name);
        if entries.last().is_dir {
            let found = entries.filter_map(dirs);
            assert(found =~= front.filter_map(dirs).push(entries.last().path));
            assert(found.drop_last() =~= front.filter_map(dirs));
        }
    }
}

/// Directories are weighed one by one, each once.
pub proof fn law_directories_are_weighed_one_by_one<P>(
    a: Seq<P>,
    b: Seq<P>,
    dir: P,
    under: spec_fn(P) -> nat,
)
    ensures
        dirs_weight(Seq::empty(), under) == 0,
        dirs_weight(seq![dir], under) == under(dir),
        dirs_weight(a + b, under) == dirs_weight(a, under) + dirs_weight(b, under),
    decreases b.len(),
{
    reveal_with_fuel(dirs_weight, 2);
    assert(seq![dir].drop_last() =~= Seq::<P>::empty());
    if b.len() > 0 {
        law_directories_are_weighed_one_by_one(a, b.drop_last(), dir, under);
        assert((a + b).drop_last() =~= a + b.drop_last());
    } else {
        assert(a + b =~= a);
    }
}

} // verus!
