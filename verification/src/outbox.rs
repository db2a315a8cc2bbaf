//! Conservation of outbox messages: every message the agent enqueued ends in
//! exactly one of the outbox directories.

use vstd::prelude::*;
use crate::filename;
use crate::filename::{file_stem, has_extension};
use crate::findings;
use crate::findings::{report_coverage, report_violation, Coverage, Finding, FindingView, ViolationKind};
use crate::text;
use crate::text::{join_texts, same_text};

verus! {

/// The directories a message moves through.
#[derive(Clone, Copy, Debug, PartialEq, Eq, Structural)]
pub enum OutboxDir {
    Outbox,
    Inflight,
    Delivered,
    Failed,
}

impl OutboxDir {
    pub open spec fn label_text(self) -> Seq<char> {
        match self {
            OutboxDir::Outbox => "outbox"@,
            OutboxDir::Inflight => "inflight"@,
            OutboxDir::Delivered => "delivered"@,
            OutboxDir::Failed => "failed"@,
        }
    }

    /// The name by which reports call the directory.
    pub fn label(self) -> (r: &'static str)
        ensures
            r@ == self.label_text(),
    {
        match self {
            OutboxDir::Outbox => "outbox",
            OutboxDir::Inflight => "inflight",
            OutboxDir::Delivered => "delivered",
            OutboxDir::Failed => "failed",
        }
    }
}

/// The entry names of one outbox directory.
pub struct DirListing {
    pub dir: OutboxDir,
    pub names: Vec<String>,
}

/// A listing, with its names as characters.
pub struct ListingView {
    pub dir: OutboxDir,
    pub names: Seq<Seq<char>>,
}

impl View for DirListing {
    type V = ListingView;

    open spec fn view(&self) -> ListingView {
        ListingView { dir: self.dir, names: text::texts(self.names@) }
    }
}

pub open spec fn listings(s: Seq<DirListing>) -> Seq<ListingView> {
    s.map_values(|l: DirListing| l@)
}

/// The message that an entry stores: its stem, if it is a JSON file.
pub open spec fn stored_message(name: Seq<char>) -> Option<Seq<char>> {
    if filename::extension(name) == Some("json"@) {
        Some(filename::stem(name))
    } else {
        None
    }
}

/// The directory, once for each of its entries that stores message `id`.
pub open spec fn places_in(dir: OutboxDir, names: Seq<Seq<char>>, id: Seq<char>) -> Seq<OutboxDir>
    decreases names.len(),
{
    if names.len() == 0 {
        Seq::empty()
    } else if stored_message(names.last()) == Some(id) {
        places_in(dir, names.drop_last(), id).push(dir)
    } else {
        places_in(dir, names.drop_last(), id)
    }
}

/// Where message `id` is stored, in the order of the listings.
pub open spec fn places(all: Seq<ListingView>, id: Seq<char>) -> Seq<OutboxDir>
    decreases all.len(),
{
    if all.len() == 0 {
        Seq::empty()
    } else {
        places(all.drop_last(), id) + places_in(all.last().dir, all.last().names, id)
    }
}

/// Whether some message ended among the failed ones.
pub open spec fn failure_seen(all: Seq<ListingView>) -> bool {
    exists|i: int, j: int|
        0 <= i < all.len() && 0 <= j < all[i].names.len() && all[i].dir == OutboxDir::Failed
            && stored_message(#[trigger] all[i].names[j]) is Some
}

pub open spec fn lost_detail(id: Seq<char>) -> Seq<char> {
    "message "@ + id + " is in no outbox directory"@
}

pub open spec fn quoted_labels(dirs: Seq<OutboxDir>) -> Seq<Seq<char>> {
    dirs.map_values(|d: OutboxDir| "\""@ + d.label_text() + "\""@)
}

pub open spec fn multiplied_detail(id: Seq<char>, dirs: Seq<OutboxDir>) -> Seq<char> {
    "message "@ + id + " is in ["@ + text::joined(quoted_labels(dirs), ", "@) + "]"@
}

/// A message in no directory is lost; one in several will be delivered twice.
pub open spec fn message_findings(all: Seq<ListingView>, id: Seq<char>) -> Seq<FindingView> {
    let dirs = places(all, id);
    findings::breach_if(dirs.len() == 0, ViolationKind::OutboxMessageLost, lost_detail(id))
        + findings::breach_if(
        dirs.len() > 1,
        ViolationKind::OutboxMessageMultiplied,
        multiplied_detail(id, dirs),
    )
}

pub open spec fn messages_findings(all: Seq<ListingView>, ids: Seq<Seq<char>>) -> Seq<FindingView>
    decreases ids.len(),
{
    if ids.len() == 0 {
        Seq::empty()
    } else {
        messages_findings(all, ids.drop_last()) + message_findings(all, ids.last())
    }
}

/// Everything there is to report of the outbox.
pub open spec fn outbox_findings(all: Seq<ListingView>, ids: Seq<Seq<char>>) -> Seq<FindingView> {
    messages_findings(all, ids) + seq![
        FindingView::Observed(Coverage::OutboxTerminalFailure, failure_seen(all)),
    ]
}

/// Whether an entry stores message `id`.
fn stores(name: &str, id: &str) -> (r: bool)
    ensures
        r == (stored_message(name@) == Some(id@)),
{
    has_extension(name, "json") && same_text(file_stem(name), id)
}

/// Finds where message `id` is stored.
fn locate(all: &Vec<DirListing>, id: &str) -> (r: Vec<OutboxDir>)
    ensures
        r@ == places(listings(all@), id@),
{
    let ghost views = listings(all@);
    let mut out: Vec<OutboxDir> = Vec::new();
    let mut i: usize = 0;
    while i < all.len()
        invariant
            i <= all@.len(),
            views == listings(all@),
            out@ == places(views.take(i as int), id@),
        decreases all@.len() - i,
    {
        let ghost before = out@;
        let dir = all[i].dir;
        let ghost names = views[i as int].names;
        let mut j: usize = 0;
        assert(out@ =~= before + places_in(dir, names.take(0), id@));
        while j < all[i].names.len()
            invariant
                i < all@.len(),
                views == listings(all@),
                names == text::texts(all@[i as int].names@),
                j <= names.len(),
                out@ == before + places_in(dir, names.take(j as int), id@),
            decreases names.len() - j,
        {
            proof {
                assert(names.take(j + 1).drop_last() =~= names.take(j as int));
                assert(names.take(j + 1).last() == all@[i as int].names@[j as int]@);
            }
            if stores(all[i].names[j].as_str(), id) {
                out.push(dir);
            }
            assert(out@ =~= before + places_in(dir, names.take(j + 1), id@));
            j = j + 1;
        }
        proof {
            assert(names.take(j as int) =~= names);
            assert(views.take(i + 1).drop_last() =~= views.take(i as int));
            assert(views.take(i + 1).last() == views[i as int]);
        }
        i = i + 1;
    }
    assert(views.take(i as int) =~= views);
    out
}

/// Whether some message ended among the failed ones.
fn any_failure(all: &Vec<DirListing>) -> (r: bool)
    ensures
        r == failure_seen(listings(all@)),
{
    let ghost views = listings(all@);
    let mut i: usize = 0;
    while i < all.len()
        invariant
            i <= all@.len(),
            views == listings(all@),
            forall|a: int, b: int|
                0 <= a < i && 0 <= b < views[a].names.len() && views[a].dir == OutboxDir::Failed
                    ==> stored_message(#[trigger] views[a].names[b]) is None,
        decreases all@.len() - i,
    {
        if all[i].dir == OutboxDir::Failed {
            let mut j: usize = 0;
            while j < all[i].names.len()
                invariant
                    i < all@.len(),
                    j <= all@[i as int].names@.len(),
                    views == listings(all@),
                    views[i as int].dir == OutboxDir::Failed,
                    forall|b: int|
                        0 <= b < j ==> stored_message(#[trigger] views[i as int].names[b]) is None,
                decreases all@[i as int].names@.len() - j,
            {
                assert(views[i as int].names[j as int] == all@[i as int].names@[j as int]@);
                if has_extension(all[i].names[j].as_str(), "json") {
                    assert(stored_message(views[i as int].names[j as int]) is Some);
                    return true;
                }
                j = j + 1;
            }
        }
        i = i + 1;
    }
    false
}

/// Writes where a message is stored that is stored more than once.
fn multiplied_text(id: &str, dirs: &Vec<OutboxDir>) -> (r: String)
    ensures
        r@ == multiplied_detail(id@, dirs@),
{
    let mut labels: Vec<String> = Vec::new();
    let mut i: usize = 0;
    while i < dirs.len()
        invariant
            i <= dirs@.len(),
            text::texts(labels@) == quoted_labels(dirs@).take(i as int),
        decreases dirs@.len() - i,
    {
        let mut label = "\"".to_owned();
        label.append(dirs[i].label());
        label.append("\"");
        let ghost before = labels@;
        labels.push(label);
        assert(text::texts(labels@) =~= text::texts(before).push(label@));
        assert(quoted_labels(dirs@).take(i + 1) =~= quoted_labels(dirs@).take(i as int).push(label@));
        i = i + 1;
    }
    assert(quoted_labels(dirs@).take(i as int) =~= quoted_labels(dirs@));
    let mut r = "message ".to_owned();
    r.append(id);
    r.append(" is in [");
    r.append(join_texts(&labels, ", ").as_str());
    r.append("]");
    r
}

/// Judges the outbox directories against the messages that were enqueued.
pub fn check_outbox_invariants(all: &Vec<DirListing>, enqueued: &Vec<String>) -> (r: Vec<Finding>)
    ensures
        findings::views(r@) == outbox_findings(listings(all@), text::texts(enqueued@)),
{
    let ghost views = listings(all@);
    let ghost ids = text::texts(enqueued@);
    let mut out: Vec<Finding> = Vec::new();
    let mut i: usize = 0;
    assert(findings::views(out@) =~= messages_findings(views, ids.take(0)));
    while i < enqueued.len()
        invariant
            i <= enqueued@.len(),
            views == listings(all@),
            ids == text::texts(enqueued@),
            findings::views(out@) == messages_findings(views, ids.take(i as int)),
        decreases enqueued@.len() - i,
    {
        let ghost before = findings::views(out@);
        let dirs = locate(all, enqueued[i].as_str());
        if dirs.len() == 0 {
            let mut detail = "message ".to_owned();
            detail.append(enqueued[i].as_str());
            detail.append(" is in no outbox directory");
            report_violation(&mut out, ViolationKind::OutboxMessageLost, detail);
        } else if dirs.len() > 1 {
            let detail = multiplied_text(enqueued[i].as_str(), &dirs);
            report_violation(&mut out, ViolationKind::OutboxMessageMultiplied, detail);
        }
        proof {
            assert(ids.take(i + 1).drop_last() =~= ids.take(i as int));
            assert(ids.take(i + 1).last() == enqueued@[i as int]@);
            assert(findings::views(out@) =~= before + message_findings(views, ids[i as int]));
        }
        i = i + 1;
    }
    assert(ids.take(i as int) =~= ids);
    report_coverage(&mut out, Coverage::OutboxTerminalFailure, any_failure(all));
    out
}

proof fn lemma_messages_clean(all: Seq<ListingView>, ids: Seq<Seq<char>>)
    ensures
        findings::no_violation(messages_findings(all, ids)) <==> forall|i: int|
            0 <= i < ids.len() ==> places(all, #[trigger] ids[i]).len() == 1,
    decreases ids.len(),
{
    if ids.len() > 0 {
        let front = ids.drop_last();
        let id = ids.last();
        let dirs = places(all, id);
        lemma_messages_clean(all, front);
        findings::lemma_no_violation_concat(
            messages_findings(all, front),
            message_findings(all, id),
        );
        findings::lemma_no_violation_concat(
            findings::breach_if(dirs.len() == 0, ViolationKind::OutboxMessageLost, lost_detail(id)),
            findings::breach_if(
                dirs.len() > 1,
                ViolationKind::OutboxMessageMultiplied,
                multiplied_detail(id, dirs),
            ),
        );
        findings::lemma_no_violation_breach(
            dirs.len() == 0,
            ViolationKind::OutboxMessageLost,
            lost_detail(id),
        );
        findings::lemma_no_violation_breach(
            dirs.len() > 1,
            ViolationKind::OutboxMessageMultiplied,
            multiplied_detail(id, dirs),
        );
        assert forall|i: int| 0 <= i < front.len() implies front[i] == #[trigger] ids[i] by {}
        if findings::no_violation(messages_findings(all, ids)) {
            assert forall|i: int| 0 <= i < ids.len() implies places(all, #[trigger] ids[i]).len()
                == 1 by {
                if i < front.len() {
                    assert(front[i] == ids[i]);
                }
            }
        }
    }
}

/// Whether entry `j` of listing `i` stores message `id`.
pub open spec fn stored_at(all: Seq<ListingView>, i: int, j: int, id: Seq<char>) -> bool {
    &&& 0 <= i < all.len()
    &&& 0 <= j < all[i].names.len()
    &&& stored_message(all[i].names[j]) == Some(id)
}

/// Whether some entry stores message `id`.
pub open spec fn stored_somewhere(all: Seq<ListingView>, id: Seq<char>) -> bool {
    exists|i: int, j: int| #[trigger] stored_at(all, i, j, id)
}

/// Whether two different entries store message `id`.
pub open spec fn stored_twice(all: Seq<ListingView>, id: Seq<char>) -> bool {
    exists|i: int, j: int, k: int, l: int|
        #![trigger stored_at(all, i, j, id), stored_at(all, k, l, id)]
        stored_at(all, i, j, id) && stored_at(all, k, l, id) && (i, j) != (k, l)
}

proof fn lemma_places_in(dir: OutboxDir, names: Seq<Seq<char>>, id: Seq<char>)
    ensures
        places_in(dir, names, id).len() >= 1 <==> exists|j: int|
            0 <= j < names.len() && stored_message(#[trigger] names[j]) == Some(id),
        places_in(dir, names, id).len() >= 2 <==> exists|j: int, k: int|
            0 <= j < k < names.len() && stored_message(#[trigger] names[j]) == Some(id)
                && stored_message(#[trigger] names[k]) == Some(id),
    decreases names.len(),
{
    if names.len() > 0 {
        let front = names.drop_last();
        let last = names.len() - 1;
        lemma_places_in(dir, front, id);
        assert forall|j: int| 0 <= j < last implies front[j] == #[trigger] names[j] by {}
        let n = places_in(dir, front, id).len();
        if n >= 1 {
            let j = choose|j: int| 0 <= j < front.len() && stored_message(#[trigger] front[j]) == Some(id);
            assert(stored_message(names[j]) == Some(id));
        }
        if n >= 2 {
            let (j, k) = choose|j: int, k: int|
                0 <= j < k < front.len() && stored_message(#[trigger] front[j]) == Some(id)
                    && stored_message(#[trigger] front[k]) == Some(id);
            assert(stored_message(names[j]) == Some(id) && stored_message(names[k]) == Some(id));
        }
        if exists|j: int| 0 <= j < names.len() && stored_message(#[trigger] names[j]) == Some(id) {
            let j = choose|j: int| 0 <= j < names.len() && stored_message(#[trigger] names[j]) == Some(id);
            if j < last {
                assert(stored_message(front[j]) == Some(id));
            }
        }
        if exists|j: int, k: int|
            0 <= j < k < names.len() && stored_message(#[trigger] names[j]) == Some(id)
                && stored_message(#[trigger] names[k]) == Some(id) {
            let (j, k) = choose|j: int, k: int|
                0 <= j < k < names.len() && stored_message(#[trigger] names[j]) == Some(id)
                    && stored_message(#[trigger] names[k]) == Some(id);
            assert(stored_message(front[j]) == Some(id));
            if k < last {
                assert(stored_message(front[k]) == Some(id));
            }
        }
    }
}

proof fn lemma_places(all: Seq<ListingView>, id: Seq<char>)
    ensures
        places(all, id).len() >= 1 <==> stored_somewhere(all, id),
        places(all, id).len() >= 2 <==> stored_twice(all, id),
    decreases all.len(),
{
    if all.len() > 0 {
        let front = all.drop_last();
        let last = all.len() - 1;
        let names = all.last().names;
        let dir = all.last().dir;
        lemma_places(front, id);
        lemma_places_in(dir, names, id);
        assert forall|i: int, j: int|
            i < last implies #[trigger] stored_at(all, i, j, id) == stored_at(front, i, j, id) by {
            if 0 <= i < last {
                assert(front[i] == all[i]);
            }
        }
        let a = places(front, id).len();
        let b = places_in(dir, names, id).len();
        if a >= 1 {
            let (i, j) = choose|i: int, j: int| #[trigger] stored_at(front, i, j, id);
            assert(stored_at(all, i, j, id));
            if b >= 1 {
                let k = choose|k: int| 0 <= k < names.len() && stored_message(#[trigger] names[k]) == Some(id);
                assert(stored_at(all, last, k, id));
            }
        }
        if a >= 2 {
            let (i, j, k, l) = choose|i: int, j: int, k: int, l: int|
                #![trigger stored_at(front, i, j, id), stored_at(front, k, l, id)]
                stored_at(front, i, j, id) && stored_at(front, k, l, id) && (i, j) != (k, l);
            assert(stored_at(all, i, j, id) && stored_at(all, k, l, id));
        }
        if b >= 1 {
            let k = choose|k: int| 0 <= k < names.len() && stored_message(#[trigger] names[k]) == Some(id);
            assert(stored_at(all, last, k, id));
        }
        if b >= 2 {
            let (j, k) = choose|j: int, k: int|
                0 <= j < k < names.len() && stored_message(#[trigger] names[j]) == Some(id)
                    && stored_message(#[trigger] names[k]) == Some(id);
            assert(stored_at(all, last, j, id) && stored_at(all, last, k, id));
        }
        if stored_somewhere(all, id) {
            let (i, j) = choose|i: int, j: int| #[trigger] stored_at(all, i, j, id);
            if i < last {
                assert(stored_at(front, i, j, id));
            } else {
                assert(stored_message(names[j]) == Some(id));
            }
        }
        if stored_twice(all, id) {
            let (i, j, k, l) = choose|i: int, j: int, k: int, l: int|
                #![trigger stored_at(all, i, j, id), stored_at(all, k, l, id)]
                stored_at(all, i, j, id) && stored_at(all, k, l, id) && (i, j) != (k, l);
            if i < last {
                assert(stored_at(front, i, j, id));
            } else {
                assert(stored_message(names[j]) == Some(id));
            }
            if k < last {
                assert(stored_at(front, k, l, id));
            } else {
                assert(stored_message(names[l]) == Some(id));
            }
            if i == last && k == last {
                if j < l {
                    assert(0 <= j < l < names.len());
                } else {
                    assert(0 <= l < j < names.len());
                }
            }
        }
    }
}

/// Conservation: the outbox check reports no breach exactly when every enqueued
/// message is stored by some entry of the outbox directories, and none by two.
pub proof fn law_outbox_check_is_conservation(all: Seq<ListingView>, ids: Seq<Seq<char>>)
    ensures
        findings::no_violation(outbox_findings(all, ids)) <==> forall|i: int|
            0 <= i < ids.len() ==> stored_somewhere(all, #[trigger] ids[i]) && !stored_twice(
                all,
                ids[i],
            ),
{
    lemma_messages_clean(all, ids);
    findings::lemma_no_violation_concat(
        messages_findings(all, ids),
        seq![FindingView::Observed(Coverage::OutboxTerminalFailure, failure_seen(all))],
    );
    assert forall|i: int| 0 <= i < ids.len() implies (places(all, #[trigger] ids[i]).len() == 1) == (
    stored_somewhere(all, ids[i]) && !stored_twice(all, ids[i])) by {
        lemma_places(all, ids[i]);
    }
}

/// A message is stored by the JSON file that is named after it, and by no other
/// entry. No entry stores a message without a name.
pub proof fn law_message_files(name: Seq<char>, id: Seq<char>)
    ensures
        stored_message(name) == Some(id) <==> id.len() > 0 && name == id + ".json"@,
        stored_message(name) is Some <==> name.len() > 5 && name.skip(name.len() - 5) == ".json"@,
{
    reveal_strlit("json");
    reveal_strlit(".json");
    assert(!"json"@.contains('.'));
    assert(seq!['.'] + "json"@ =~= ".json"@);
    filename::law_extension_is_an_ending(name, "json"@);
    if name.len() > 5 && name.skip(name.len() - 5) == ".json"@ {
        assert(name =~= name.take(name.len() - 5) + ".json"@);
    }
    if id.len() > 0 && name == id + ".json"@ {
        assert(name.skip(name.len() - 5) =~= ".json"@);
        assert(name.take(name.len() - 5) =~= id);
    }
}

/// The places of a message follow the listings: those in one listing behind
/// another follow those in the first, and a single listing gives its directory
/// once for each entry named after the message.
pub proof fn law_places_follow_the_listings(
    a: Seq<ListingView>,
    b: Seq<ListingView>,
    one: ListingView,
    id: Seq<char>,
)
    ensures
        places(Seq::empty(), id) == Seq::<OutboxDir>::empty(),
        places(a + b, id) == places(a, id) + places(b, id),
        places(seq![one], id).len() == one.names.filter(
            |name: Seq<char>| id.len() > 0 && name == id + ".json"@,
        ).len(),
        forall|k: int|
            0 <= k < places(seq![one], id).len() ==> #[trigger] places(seq![one], id)[k] == one.dir,
{
    lemma_places_concat(a, b, id);
    lemma_places_of_one(one.dir, one.names, id);
    assert(seq![one].drop_last() =~= Seq::<ListingView>::empty());
    reveal_with_fuel(places, 2);
    assert(places(seq![one], id) =~= places_in(one.dir, one.names, id));
}

proof fn lemma_places_concat(a: Seq<ListingView>, b: Seq<ListingView>, id: Seq<char>)
    ensures
        places(a + b, id) == places(a, id) + places(b, id),
    decreases b.len(),
{
    if b.len() == 0 {
        assert(a + b =~= a);
        assert(places(a, id) + places(b, id) =~= places(a, id));
    } else {
        lemma_places_concat(a, b.drop_last(), id);
        assert((a + b).drop_last() =~= a + b.drop_last());
        assert((a + b).last() == b.last());
        assert(places(a + b, id) =~= places(a, id) + places(b, id));
    }
}

proof fn lemma_places_of_one(dir: OutboxDir, names: Seq<Seq<char>>, id: Seq<char>)
    ensures
        places_in(dir, names, id).len() == names.filter(
            |name: Seq<char>| id.len() > 0 && name == id + ".json"@,
        ).len(),
        forall|k: int|
            0 <= k < places_in(dir, names, id).len() ==> #[trigger] places_in(dir, names, id)[k] == dir,
    decreases names.len(),
{
    reveal(Seq::filter);
    if names.len() > 0 {
        lemma_places_of_one(dir, names.drop_last(), id);
        law_message_files(names.last(), id);
    }
}

/// A listing is judged by its directory and the names in it.
pub proof fn law_listings_are_judged_as_they_stand(all: Seq<DirListing>)
    ensures
        listings(all).len() == all.len(),
        forall|i: int|
            0 <= i < all.len() ==> (#[trigger] listings(all)[i]).dir == all[i].dir
                && listings(all)[i].names.len() == all[i].names@.len(),
        forall|i: int, j: int|
            0 <= i < all.len() && 0 <= j < all[i].names@.len() ==> #[trigger] listings(
                all,
            )[i].names[j] == all[i].names@[j]@,
{
}

proof fn lemma_messages_report(
    all: Seq<ListingView>,
    enqueued: Seq<String>,
    lost: spec_fn(String) -> Option<Seq<char>>,
    multiplied: spec_fn(String) -> Option<Seq<char>>,
)
    requires
        forall|id: String|
            #![trigger lost(id)]
            lost(id) == (if places(all, id@).len() == 0 {
                Some(lost_detail(id@))
            } else {
                None
            }),
        forall|id: String|
            #![trigger multiplied(id)]
            multiplied(id) == (if places(all, id@).len() > 1 {
                Some(multiplied_detail(id@, places(all, id@)))
            } else {
                None
            }),
    ensures
        ({
            let report = messages_findings(all, text::texts(enqueued));
            &&& findings::details(report, ViolationKind::OutboxMessageLost) == enqueued.filter_map(lost)
            &&& findings::details(report, ViolationKind::OutboxMessageMultiplied)
                == enqueued.filter_map(multiplied)
            &&& forall|k: ViolationKind|
                k != ViolationKind::OutboxMessageLost && k != ViolationKind::OutboxMessageMultiplied
                    ==> #[trigger] findings::details(report, k) == Seq::<Seq<char>>::empty()
            &&& forall|p: Coverage| #[trigger]
                findings::observations(report, p) == Seq::<bool>::empty()
        }),
    decreases enqueued.len(),
{
    let ids = text::texts(enqueued);
    findings::lemma_report_of_one(FindingView::Observed(Coverage::OutboxTerminalFailure, true));
    if enqueued.len() > 0 {
        let front = enqueued.drop_last();
        let id = enqueued.last();
        let dirs = places(all, id@);
        lemma_messages_report(all, front, lost, multiplied);
        assert(ids.drop_last() =~= text::texts(front));
        assert(ids.last() == id@);
        let a = findings::breach_if(
            dirs.len() == 0,
            ViolationKind::OutboxMessageLost,
            lost_detail(id@),
        );
        let b = findings::breach_if(
            dirs.len() > 1,
            ViolationKind::OutboxMessageMultiplied,
            multiplied_detail(id@, dirs),
        );
        findings::lemma_report_of_breach(
            dirs.len() == 0,
            ViolationKind::OutboxMessageLost,
            lost_detail(id@),
        );
        findings::lemma_report_of_breach(
            dirs.len() > 1,
            ViolationKind::OutboxMessageMultiplied,
            multiplied_detail(id@, dirs),
        );
        findings::lemma_reports_concat(a, b);
        findings::lemma_reports_concat(
            messages_findings(all, text::texts(front)),
            message_findings(all, id@),
        );
        let report = messages_findings(all, ids);
        assert(lost(id) is Some <==> dirs.len() == 0);
        assert(multiplied(id) is Some <==> dirs.len() > 1);
        assert(findings::details(report, ViolationKind::OutboxMessageLost) =~= enqueued.filter_map(
            lost,
        ));
        assert(findings::details(report, ViolationKind::OutboxMessageMultiplied)
            =~= enqueued.filter_map(multiplied));
    }
}

/// The breaches that the outbox check reports, in the order of the enqueued
/// messages and each on its own: one for each message that no entry is named
/// after, and one for each that more than one is, with its places. It observes a
/// terminal failure when an entry of a failed directory is a JSON file with a
/// name. Nothing else is reported.
pub proof fn law_outbox_breaches(all: Seq<DirListing>, enqueued: Seq<String>)
    ensures
        ({
            let report = outbox_findings(listings(all), text::texts(enqueued));
            let lost = enqueued.filter_map(
                |id: String|
                    if id@.len() == 0 || forall|i: int, j: int|
                        0 <= i < all.len() && 0 <= j < all[i].names@.len() ==> (
                        #[trigger] all[i].names@[j])@ != id@ + ".json"@ {
                        Some("message "@ + id@ + " is in no outbox directory"@)
                    } else {
                        None
                    },
            );
            let multiplied = enqueued.filter_map(
                |id: String|
                    if places(listings(all), id@).len() > 1 {
                        Some(
                            "message "@ + id@ + " is in ["@ + text::joined(
                                places(listings(all), id@).map_values(
                                    |d: OutboxDir| "\""@ + d.label_text() + "\""@,
                                ),
                                ", "@,
                            ) + "]"@,
                        )
                    } else {
                        None
                    },
            );
            &&& findings::details(report, ViolationKind::OutboxMessageLost) == lost
            &&& findings::details(report, ViolationKind::OutboxMessageMultiplied) == multiplied
            &&& findings::violation_count(report) == lost.len() + multiplied.len()
            &&& findings::observations(report, Coverage::OutboxTerminalFailure).len() == 1
            &&& findings::observations(report, Coverage::OutboxTerminalFailure)[0] == exists|
                i: int,
                j: int,
            |
                0 <= i < all.len() && 0 <= j < all[i].names@.len() && all[i].dir == OutboxDir::Failed
                    && (#[trigger] all[i].names@[j])@.len() > 5 && all[i].names@[j]@.skip(
                    all[i].names@[j]@.len() - 5,
                ) == ".json"@
            &&& report.len() == lost.len() + multiplied.len() + 1
        }),
{
    let views = listings(all);
    let report = outbox_findings(views, text::texts(enqueued));
    let seen = FindingView::Observed(Coverage::OutboxTerminalFailure, failure_seen(views));
    let lost = |id: String|
        if id@.len() == 0 || forall|i: int, j: int|
            0 <= i < all.len() && 0 <= j < all[i].names@.len() ==> (#[trigger] all[i].names@[j])@
                != id@ + ".json"@ {
            Some("message "@ + id@ + " is in no outbox directory"@)
        } else {
            None
        };
    let multiplied = |id: String|
        if places(listings(all), id@).len() > 1 {
            Some(
                "message "@ + id@ + " is in ["@ + text::joined(
                    places(listings(all), id@).map_values(
                        |d: OutboxDir| "\""@ + d.label_text() + "\""@,
                    ),
                    ", "@,
                ) + "]"@,
            )
        } else {
            None
        };
    assert forall|id: String| #[trigger] lost(id) == (if places(views, id@).len() == 0 {
        Some(lost_detail(id@))
    } else {
        None
    }) by {
        lemma_places(views, id@);
        if stored_somewhere(views, id@) {
            let (i, j) = choose|i: int, j: int| #[trigger] stored_at(views, i, j, id@);
            law_message_files(views[i].names[j], id@);
            assert(views[i].names[j] == all[i].names@[j]@);
            assert(all[i].names@[j]@ == id@ + ".json"@);
        }
        if id@.len() > 0 && !(forall|i: int, j: int|
            0 <= i < all.len() && 0 <= j < all[i].names@.len() ==> (#[trigger] all[i].names@[j])@
                != id@ + ".json"@) {
            let (i, j) = choose|i: int, j: int|
                0 <= i < all.len() && 0 <= j < all[i].names@.len() && (
                #[trigger] all[i].names@[j])@ == id@ + ".json"@;
            law_message_files(views[i].names[j], id@);
            assert(views[i].names[j] == all[i].names@[j]@);
            assert(stored_at(views, i, j, id@));
        }
    }
    lemma_messages_report(views, enqueued, lost, multiplied);
    findings::lemma_report_of_one(seen);
    findings::lemma_reports_concat(messages_findings(views, text::texts(enqueued)), seq![seen]);
    findings::law_every_breach_counts(report);
    lemma_messages_len(views, text::texts(enqueued));
    findings::law_every_breach_counts(messages_findings(views, text::texts(enqueued)));
    assert(failure_seen(views) == exists|i: int, j: int|
        0 <= i < all.len() && 0 <= j < all[i].names@.len() && all[i].dir == OutboxDir::Failed && (
        #[trigger] all[i].names@[j])@.len() > 5 && all[i].names@[j]@.skip(
            all[i].names@[j]@.len() - 5,
        ) == ".json"@) by {
        if failure_seen(views) {
            let (i, j) = choose|i: int, j: int|
                0 <= i < views.len() && 0 <= j < views[i].names.len() && views[i].dir
                    == OutboxDir::Failed && stored_message(#[trigger] views[i].names[j]) is Some;
            law_message_files(views[i].names[j], Seq::empty());
            assert(views[i].names[j] == all[i].names@[j]@);
        }
        if exists|i: int, j: int|
            0 <= i < all.len() && 0 <= j < all[i].names@.len() && all[i].dir == OutboxDir::Failed
                && (#[trigger] all[i].names@[j])@.len() > 5 && all[i].names@[j]@.skip(
                all[i].names@[j]@.len() - 5,
            ) == ".json"@ {
            let (i, j) = choose|i: int, j: int|
                0 <= i < all.len() && 0 <= j < all[i].names@.len() && all[i].dir
                    == OutboxDir::Failed && (#[trigger] all[i].names@[j])@.len() > 5
                    && all[i].names@[j]@.skip(all[i].names@[j]@.len() - 5) == ".json"@;
            law_message_files(views[i].names[j], Seq::empty());
            assert(views[i].names[j] == all[i].names@[j]@);
        }
    }
}

proof fn lemma_messages_len(all: Seq<ListingView>, ids: Seq<Seq<char>>)
    ensures
        messages_findings(all, ids).len() == findings::violation_count(messages_findings(all, ids)),
    decreases ids.len(),
{
    let report = messages_findings(all, ids);
    if ids.len() > 0 {
        let front = messages_findings(all, ids.drop_last());
        let last = message_findings(all, ids.last());
        lemma_messages_len(all, ids.drop_last());
        reveal_with_fuel(findings::violation_count, 3);
        if last.len() == 0 {
            assert(report =~= front);
        } else {
            assert(report.drop_last() =~= front);
        }
    }
}

} // verus!
