//! The append scenario of the event log, and what must hold of the log after a
//! cold reopen.

use vstd::prelude::*;
use crate::fakes::SandboxProvider;
use crate::findings;
use crate::findings::{report_coverage, report_violation, Coverage, Finding, FindingView, ViolationKind};
use crate::json;
use crate::json::{number_member, single_number_object};
use crate::outcome::Conclusion;
use crate::prng;
use crate::prng::Prng;
use crate::text;
use crate::text::{decimal_text, same_text};

verus! {

broadcast use {prng::lemma_advance_compose, prng::lemma_draw_compose};

/// How many batches the scenario appends.
pub const APPEND_ROUNDS: u32 = 14;

/// The settings of a harness on disk.
pub struct HarnessConfig {
    pub root: String,
    pub secret: [u8; 32],
    pub sandbox_default: SandboxProvider,
    pub sandbox_backends: Vec<SandboxProvider>,
}

/// The settings of a harness under `root`. The sandbox backend is registered
/// and never used: no scenario creates a sandbox.
pub fn config(root: &str) -> (r: HarnessConfig)
    ensures
        r.root@ == root@,
        forall|i: int| 0 <= i < 32 ==> #[trigger] r.secret@[i] == 7,
        r.sandbox_default == SandboxProvider::LocalProcess,
        r.sandbox_backends@ == seq![SandboxProvider::LocalProcess],
{
    let mut sandbox_backends: Vec<SandboxProvider> = Vec::new();
    sandbox_backends.push(SandboxProvider::LocalProcess);
    assert(sandbox_backends@ =~= seq![SandboxProvider::LocalProcess]);
    HarnessConfig {
        root: root.to_owned(),
        secret: [7u8; 32],
        sandbox_default: SandboxProvider::LocalProcess,
        sandbox_backends,
    }
}

/// The appends of a run: the last sequence number given out, and the numbers
/// whose append was acknowledged.
pub struct AppendLog {
    pub next_seq: u64,
    pub acked: Vec<u64>,
}

/// One append: the numbers of its events, and when the power is cut, in
/// milliseconds, if it is.
pub struct AppendPlan {
    pub batch: Vec<u64>,
    pub cut_after_ms: Option<u64>,
}

/// `n` numbers in a row after `last`.
pub open spec fn numbers_after(last: u64, n: nat) -> Seq<u64> {
    Seq::new(n, |i: int| (last + 1 + i) as u64)
}

/// The size of the batch drawn from state `s`.
pub open spec fn batch_size_drawn(s: u64) -> nat {
    prng::in_range(prng::draw(s, 0), 1, 4) as nat
}

/// The cut drawn from state `s`, if there is one.
pub open spec fn cut_drawn(s: u64) -> Option<u64> {
    if prng::hits(prng::draw(s, 1), 350) {
        Some(prng::in_range(prng::draw(s, 2), 0, 8))
    } else {
        None
    }
}

/// How many draws an append takes.
pub open spec fn append_draws(s: u64) -> nat {
    if prng::hits(prng::draw(s, 1), 350) {
        3
    } else {
        2
    }
}

impl AppendLog {
    /// A log without appends.
    pub fn new() -> (r: Self)
        ensures
            r.next_seq == 0,
            r.acked@ == Seq::<u64>::empty(),
    {
        AppendLog { next_seq: 0, acked: Vec::new() }
    }

    /// Draws the next append, and gives its events their numbers.
    pub fn next_append(&mut self, rng: &mut Prng) -> (r: AppendPlan)
        requires
            old(self).next_seq <= u64::MAX - 4,
        ensures
            r.batch@ == numbers_after(old(self).next_seq, batch_size_drawn(old(rng).0)),
            r.cut_after_ms == cut_drawn(old(rng).0),
            final(self).next_seq == old(self).next_seq + batch_size_drawn(old(rng).0),
            final(self).acked@ == old(self).acked@,
            final(rng).0 == prng::advance(old(rng).0, append_draws(old(rng).0)),
    {
        let ghost start = self.next_seq;
        let size = rng.range(1, 4);
        let mut batch: Vec<u64> = Vec::new();
        let mut i: u64 = 0;
        while i < size
            invariant
                i <= size <= 4,
                start <= u64::MAX - 4,
                self.next_seq == start + i,
                self.acked@ == old(self).acked@,
                batch@ =~= numbers_after(start, i as nat),
            decreases size - i,
        {
            self.next_seq = self.next_seq + 1;
            batch.push(self.next_seq);
            i = i + 1;
        }
        let cut_after_ms = if rng.chance(350) {
            Some(rng.range(0, 8))
        } else {
            None
        };
        AppendPlan { batch, cut_after_ms }
    }

    /// Takes note that an append was acknowledged.
    pub fn acknowledge(&mut self, batch: &Vec<u64>)
        ensures
            final(self).acked@ == old(self).acked@ + batch@,
            final(self).next_seq == old(self).next_seq,
    {
        let mut i: usize = 0;
        while i < batch.len()
            invariant
                i <= batch@.len(),
                self.acked@ =~= old(self).acked@ + batch@.take(i as int),
                self.next_seq == old(self).next_seq,
            decreases batch@.len() - i,
        {
            self.acked.push(batch[i]);
            i = i + 1;
        }
        assert(batch@.take(i as int) =~= batch@);
    }
}

/// How long the driver waits after an append, in milliseconds.
pub fn draw_append_pause_ms(rng: &mut Prng) -> (r: u64)
    ensures
        r == prng::in_range(prng::draw(old(rng).0, 0), 1, 40),
        final(rng).0 == prng::advance(old(rng).0, 1),
{
    rng.range(1, 40)
}

/// Whether a log is in order: the acknowledged numbers rise, and none is higher
/// than the last number given out.
pub open spec fn in_order(acked: Seq<u64>, next_seq: u64) -> bool {
    &&& forall|i: int, j: int| 0 <= i < j < acked.len() ==> acked[i] < acked[j]
    &&& forall|i: int| 0 <= i < acked.len() ==> 1 <= #[trigger] acked[i] <= next_seq
}

/// Numbers are given out once: acknowledging a batch just given out, or not
/// doing so, leaves the log in order, so no number is acknowledged twice.
pub proof fn law_numbers_are_given_out_once(acked: Seq<u64>, next_seq: u64, n: nat)
    requires
        in_order(acked, next_seq),
        next_seq + n <= u64::MAX,
    ensures
        in_order(acked, (next_seq + n) as u64),
        in_order(acked + numbers_after(next_seq, n), (next_seq + n) as u64),
        (acked + numbers_after(next_seq, n)).no_duplicates(),
{
}

/// The type under which the scenario's events are logged.
pub open spec fn probe_type() -> Seq<char> {
    "dst-probe"@
}

/// What an event holds.
pub enum EventData {
    /// An application's own event.
    Custom { event_type: String, payload: serde_json::Value },
    /// Any other event.
    Other,
}

/// The identifier of an event: its place in the order of events, and its text.
pub struct EventId {
    pub order: u128,
    pub text: String,
}

/// A logged event.
pub struct EventRecord {
    pub id: EventId,
    pub data: EventData,
}

impl EventData {
    /// The sequence number that an event of the scenario carries.
    pub open spec fn probe_number(self) -> Option<u64> {
        match self {
            EventData::Custom { event_type, payload } => {
                let members = json::number_members(payload);
                if event_type@ == probe_type() && members.contains_key("seq"@) {
                    Some(members["seq"@])
                } else {
                    None
                }
            },
            EventData::Other => None,
        }
    }

    /// An event of the scenario with the given number.
    pub fn probe(seq: u64) -> (r: Self)
        ensures
            r.probe_number() == Some(seq),
            r matches EventData::Custom { event_type, payload } && event_type@ == probe_type()
                && json::number_members(payload) == map!["seq"@ => seq],
    {
        let payload = single_number_object("seq", seq);
        EventData::Custom { event_type: "dst-probe".to_owned(), payload }
    }

    /// Reads the sequence number off an event, if it is one of the scenario's.
    pub fn probe_seq(&self) -> (r: Option<u64>)
        ensures
            r == self.probe_number(),
    {
        match self {
            EventData::Custom { event_type, payload } => {
                if same_text(event_type.as_str(), "dst-probe") {
                    number_member(payload, "seq")
                } else {
                    None
                }
            },
            EventData::Other => None,
        }
    }
}

/// The numbers that the scenario's events carry, in the order of the log.
pub open spec fn numbers_logged(events: Seq<EventRecord>) -> Seq<u64>
    decreases events.len(),
{
    if events.len() == 0 {
        Seq::empty()
    } else {
        let front = numbers_logged(events.drop_last());
        match events.last().data.probe_number() {
            Some(seq) => front.push(seq),
            None => front,
        }
    }
}

/// What a reopened log shows.
pub struct EventSurvey {
    /// The numbers of the scenario's events.
    pub seen: Vec<u64>,
    /// The newest event.
    pub newest: Option<EventId>,
}

/// Whether `id` is the newest of `events`.
pub open spec fn is_newest(events: Seq<EventRecord>, id: EventId) -> bool {
    &&& exists|i: int|
        0 <= i < events.len() && (#[trigger] events[i]).id.order == id.order && events[i].id.text@
            == id.text@
    &&& forall|i: int| 0 <= i < events.len() ==> (#[trigger] events[i]).id.order <= id.order
}

/// Surveys a reopened log.
pub fn survey_events(events: &Vec<EventRecord>) -> (r: EventSurvey)
    ensures
        r.seen@ == numbers_logged(events@),
        match r.newest {
            Some(id) => is_newest(events@, id),
            None => events@.len() == 0,
        },
{
    let mut seen: Vec<u64> = Vec::new();
    let mut newest: Option<EventId> = None;
    let mut i: usize = 0;
    while i < events.len()
        invariant
            i <= events@.len(),
            seen@ == numbers_logged(events@.take(i as int)),
            match newest {
                Some(id) => is_newest(events@.take(i as int), id),
                None => i == 0,
            },
        decreases events@.len() - i,
    {
        let event = &events[i];
        let ghost before = events@.take(i as int);
        let ghost after = events@.take(i + 1);
        proof {
            assert(after.drop_last() =~= before);
            assert(after.last() == *event);
            assert forall|k: int| 0 <= k < before.len() implies before[k] == #[trigger] after[k] by {}
        }
        if let Some(seq) = event.data.probe_seq() {
            seen.push(seq);
        }
        let newer = match &newest {
            Some(current) => current.order < event.id.order,
            None => true,
        };
        let ghost former = newest;
        if newer {
            newest = Some(EventId { order: event.id.order, text: event.id.text.clone() });
        }
        proof {
            if newer {
                assert(after[i as int].id.order == newest->0.order);
                assert forall|k: int| 0 <= k < after.len() implies (#[trigger] after[k]).id.order
                    <= newest->0.order by {
                    if k < i {
                        assert(before[k] == after[k]);
                    }
                }
            } else {
                let k = choose|k: int|
                    0 <= k < before.len() && (#[trigger] before[k]).id.order == former->0.order
                        && before[k].id.text@ == former->0.text@;
                assert(after[k].id.order == former->0.order);
                assert forall|m: int| 0 <= m < after.len() implies (#[trigger] after[m]).id.order
                    <= newest->0.order by {
                    if m < i {
                        assert(before[m] == after[m]);
                    }
                }
            }
        }
        i = i + 1;
    }
    assert(events@.take(i as int) =~= events@);
    EventSurvey { seen, newest }
}

pub open spec fn event_lost_detail(seq: u64) -> Seq<char> {
    "event seq="@ + text::decimal(seq as nat) + " was acknowledged but is gone after reopen"@
}

pub open spec fn head_behind_detail(head: Seq<char>, newest: Seq<char>) -> Seq<char> {
    "record head "@ + head + " but events on disk reach "@ + newest
}

/// Every acknowledged event survived.
pub open spec fn durability_findings(acked: Seq<u64>, seen: Seq<u64>) -> Seq<FindingView>
    decreases acked.len(),
{
    if acked.len() == 0 {
        Seq::empty()
    } else {
        durability_findings(acked.drop_last(), seen) + findings::breach_if(
            !seen.contains(acked.last()),
            ViolationKind::AckedEventLost,
            event_lost_detail(acked.last()),
        )
    }
}

/// Whether the head of a conversation's record has fallen behind its events.
pub open spec fn head_behind(head: Option<u128>, newest: Option<u128>) -> bool {
    newest matches Some(reached) && !(head matches Some(at) && at >= reached)
}

/// The head of a conversation as its record has it: its place in the order of
/// events, if there is one, and how the field is rendered.
pub struct RecordHead {
    pub order: Option<u128>,
    pub rendering: String,
}

impl EventSurvey {
    pub open spec fn newest_order(self) -> Option<u128> {
        match self.newest {
            Some(id) => Some(id.order),
            None => None,
        }
    }

    pub open spec fn newest_text(self) -> Seq<char> {
        match self.newest {
            Some(id) => id.text@,
            None => Seq::empty(),
        }
    }

    /// Everything there is to report of a reopened log.
    pub open spec fn findings(self, acked: Seq<u64>, head: RecordHead) -> Seq<FindingView> {
        durability_findings(acked, self.seen@) + seq![
            FindingView::Observed(
                Coverage::UncommittedTailSurvived,
                self.seen@.len() > acked.len(),
            ),
        ] + findings::breach_if(
            head_behind(head.order, self.newest_order()),
            ViolationKind::HeadBehindEvents,
            head_behind_detail(head.rendering@, self.newest_text()),
        )
    }
}

/// Whether `n` is among `list`.
fn contains_number(list: &Vec<u64>, n: u64) -> (r: bool)
    ensures
        r == list@.contains(n),
{
    let mut i: usize = 0;
    while i < list.len()
        invariant
            i <= list@.len(),
            forall|k: int| 0 <= k < i ==> list@[k] != n,
        decreases list@.len() - i,
    {
        if list[i] == n {
            return true;
        }
        i = i + 1;
    }
    false
}

/// Judges a reopened log against what was acknowledged and the record's head.
pub fn check_eventlog_invariants(log: &AppendLog, survey: &EventSurvey, head: &RecordHead) -> (r: Vec<
    Finding,
>)
    ensures
        findings::views(r@) == survey.findings(log.acked@, *head),
{
    let mut out: Vec<Finding> = Vec::new();
    let ghost acked = log.acked@;
    let mut i: usize = 0;
    assert(findings::views(out@) =~= durability_findings(acked.take(0), survey.seen@));
    while i < log.acked.len()
        invariant
            i <= log.acked@.len(),
            acked == log.acked@,
            findings::views(out@) == durability_findings(acked.take(i as int), survey.seen@),
        decreases log.acked@.len() - i,
    {
        let seq: u64 = log.acked[i];
        let ghost before = findings::views(out@);
        if !contains_number(&survey.seen, seq) {
            let mut detail = "event seq=".to_owned();
            detail.append(decimal_text(seq).as_str());
            detail.append(" was acknowledged but is gone after reopen");
            report_violation(&mut out, ViolationKind::AckedEventLost, detail);
        }
        proof {
            assert(acked.take(i + 1).drop_last() =~= acked.take(i as int));
            assert(acked.take(i + 1).last() == seq);
            assert(findings::views(out@) =~= durability_findings(acked.take(i + 1), survey.seen@));
        }
        i = i + 1;
    }
    assert(acked.take(i as int) =~= acked);
    report_coverage(
        &mut out,
        Coverage::UncommittedTailSurvived,
        survey.seen.len() > log.acked.len(),
    );
    if let Some(newest) = &survey.newest {
        let caught_up = match head.order {
            Some(at) => at >= newest.order,
            None => false,
        };
        if !caught_up {
            let mut detail = "record head ".to_owned();
            detail.append(head.rendering.as_str());
            detail.append(" but events on disk reach ");
            detail.append(newest.text.as_str());
            report_violation(&mut out, ViolationKind::HeadBehindEvents, detail);
        }
    }
    assert(findings::views(out@) =~= survey.findings(log.acked@, *head));
    out
}

proof fn lemma_durability_clean(acked: Seq<u64>, seen: Seq<u64>)
    ensures
        findings::no_violation(durability_findings(acked, seen)) <==> forall|i: int|
            0 <= i < acked.len() ==> seen.contains(#[trigger] acked[i]),
    decreases acked.len(),
{
    if acked.len() > 0 {
        let front = acked.drop_last();
        let seq = acked.last();
        lemma_durability_clean(front, seen);
        findings::lemma_no_violation_concat(
            durability_findings(front, seen),
            findings::breach_if(
                !seen.contains(seq),
                ViolationKind::AckedEventLost,
                event_lost_detail(seq),
            ),
        );
        findings::lemma_no_violation_breach(
            !seen.contains(seq),
            ViolationKind::AckedEventLost,
            event_lost_detail(seq),
        );
        assert forall|i: int| 0 <= i < front.len() implies front[i] == #[trigger] acked[i] by {}
        if findings::no_violation(durability_findings(acked, seen)) {
            assert forall|i: int| 0 <= i < acked.len() implies seen.contains(#[trigger] acked[i]) by {
                if i < front.len() {
                    assert(front[i] == acked[i]);
                }
            }
        }
    }
}

/// The event log check reports a breach exactly when an acknowledged event is
/// gone or the head of the record lies behind some event on disk.
pub proof fn law_eventlog_check_is_exact(
    events: Seq<EventRecord>,
    survey: EventSurvey,
    acked: Seq<u64>,
    head: RecordHead,
)
    requires
        survey.seen@ == numbers_logged(events),
        match survey.newest {
            Some(id) => is_newest(events, id),
            None => events.len() == 0,
        },
    ensures
        findings::no_violation(survey.findings(acked, head)) <==> {
            &&& forall|i: int|
                0 <= i < acked.len() ==> numbers_logged(events).contains(#[trigger] acked[i])
            &&& forall|i: int|
                0 <= i < events.len() ==> (head.order matches Some(at) && at >= (
                #[trigger] events[i]).id.order)
        },
{
    let a = durability_findings(acked, survey.seen@);
    let b = seq![
        FindingView::Observed(
            Coverage::UncommittedTailSurvived,
            survey.seen@.len() > acked.len(),
        ),
    ];
    let behind = head_behind(head.order, survey.newest_order());
    let detail = head_behind_detail(head.rendering@, survey.newest_text());
    let c = findings::breach_if(behind, ViolationKind::HeadBehindEvents, detail);
    findings::lemma_no_violation_concat(a + b, c);
    findings::lemma_no_violation_concat(a, b);
    findings::lemma_no_violation_breach(behind, ViolationKind::HeadBehindEvents, detail);
    lemma_durability_clean(acked, survey.seen@);
    if let Some(id) = survey.newest {
        let k = choose|k: int|
            0 <= k < events.len() && (#[trigger] events[k]).id.order == id.order
                && events[k].id.text@ == id.text@;
        assert(events[k].id.order == id.order);
    }
}

/// The numbers that a scenario's events carry are read back off the log as they
/// were written, whatever other events lie between.
pub proof fn law_written_numbers_are_read_back(events: Seq<EventRecord>, i: int)
    requires
        0 <= i < events.len(),
        events[i].data.probe_number() is Some,
    ensures
        numbers_logged(events).contains(events[i].data.probe_number()->0),
    decreases events.len(),
{
    let front = events.drop_last();
    let seq = events[i].data.probe_number()->0;
    if i < front.len() {
        law_written_numbers_are_read_back(front, i);
        assert(front[i] == events[i]);
        let k = choose|k: int| 0 <= k < numbers_logged(front).len() && numbers_logged(front)[k] == seq;
        assert(numbers_logged(events)[k] == seq);
    } else {
        let all = numbers_logged(events);
        assert(all[all.len() - 1] == seq);
    }
}

/// Ends an event log run.
pub fn conclude_eventlog(violations: u64, acked: usize, on_disk: usize, events_total: usize) -> (r:
    Conclusion)
    ensures
        match r {
            Conclusion::Breached(line) => violations > 0 && line@
                == "EVENTLOG_DST_VIOLATIONS count="@ + text::decimal(violations as nat),
            Conclusion::Clean(outcome, line) => {
                let counts = "acked="@ + text::decimal(acked as nat) + " on_disk="@ + text::decimal(
                    on_disk as nat,
                );
                &&& violations == 0
                &&& outcome@ == counts + " events_total="@ + text::decimal(events_total as nat)
                &&& line@ == "EVENTLOG_DST_OK "@ + counts
            },
        },
{
    if violations > 0 {
        let mut line = "EVENTLOG_DST_VIOLATIONS count=".to_owned();
        line.append(decimal_text(violations).as_str());
        return Conclusion::Breached(line);
    }
    let mut outcome = "acked=".to_owned();
    outcome.append(decimal_text(acked as u64).as_str());
    outcome.append(" on_disk=");
    outcome.append(decimal_text(on_disk as u64).as_str());
    let mut line = "EVENTLOG_DST_OK ".to_owned();
    line.append(outcome.as_str());
    outcome.append(" events_total=");
    outcome.append(decimal_text(events_total as u64).as_str());
    Conclusion::Clean(outcome, line)
}

/// The survey holds what the log holds and nothing else: one number for each
/// logged event of the probe type whose payload has a number under `seq`, that
/// number, in the order of the log.
pub proof fn law_survey_is_the_log(events: Seq<EventRecord>)
    ensures
        numbers_logged(events) == events.filter_map(
            |e: EventRecord|
                match e.data {
                    EventData::Custom { event_type, payload } => if event_type@ == "dst-probe"@
                        && json::number_members(payload).contains_key("seq"@) {
                        Some(json::number_members(payload)["seq"@])
                    } else {
                        None
                    },
                    EventData::Other => None,
                },
        ),
    decreases events.len(),
{
    if events.len() > 0 {
        law_survey_is_the_log(events.drop_last());
        assert(numbers_logged(events) =~= events.filter_map(
            |e: EventRecord|
                match e.data {
                    EventData::Custom { event_type, payload } => if event_type@ == "dst-probe"@
                        && json::number_members(payload).contains_key("seq"@) {
                        Some(json::number_members(payload)["seq"@])
                    } else {
                        None
                    },
                    EventData::Other => None,
                },
        ));
    }
}

/// A number is seen exactly when some logged event carries it, and as many are
/// seen as events carry one.
pub proof fn law_seen_numbers_are_on_disk(events: Seq<EventRecord>, n: u64)
    ensures
        numbers_logged(events).contains(n) <==> exists|i: int|
            0 <= i < events.len() && (#[trigger] events[i]).data.probe_number() == Some(n),
        numbers_logged(events).len() == events.filter(
            |e: EventRecord| e.data.probe_number() is Some,
        ).len(),
    decreases events.len(),
{
    reveal(Seq::filter);
    let all = numbers_logged(events);
    if exists|i: int| 0 <= i < events.len() && (#[trigger] events[i]).data.probe_number() == Some(n) {
        let i = choose|i: int|
            0 <= i < events.len() && (#[trigger] events[i]).data.probe_number() == Some(n);
        law_written_numbers_are_read_back(events, i);
    }
    if events.len() > 0 {
        let front = events.drop_last();
        law_seen_numbers_are_on_disk(front, n);
        if all.contains(n) {
            let k = choose|k: int| 0 <= k < all.len() && all[k] == n;
            if events.last().data.probe_number() == Some(n) {
                assert(events[events.len() - 1].data.probe_number() == Some(n));
            } else {
                assert(numbers_logged(front)[k] == n);
                assert(numbers_logged(front).contains(n));
                let i = choose|i: int|
                    0 <= i < front.len() && (#[trigger] front[i]).data.probe_number() == Some(n);
                assert(events[i].data.probe_number() == Some(n));
            }
        }
    }
}

/// Which event is the newest: one of the log that no other one is behind.
pub proof fn law_newest_is_never_behind(events: Seq<EventRecord>, id: EventId)
    ensures
        is_newest(events, id) <==> {
            &&& exists|i: int|
                0 <= i < events.len() && (#[trigger] events[i]).id.order == id.order
                    && events[i].id.text@ == id.text@
            &&& !exists|i: int| 0 <= i < events.len() && (#[trigger] events[i]).id.order > id.order
        },
{
}

proof fn lemma_durability_report(
    acked: Seq<u64>,
    seen: Seq<u64>,
    lost: spec_fn(u64) -> Option<Seq<char>>,
)
    requires
        forall|n: u64|
            #![trigger lost(n)]
            lost(n) == (if !seen.contains(n) {
                Some(event_lost_detail(n))
            } else {
                None
            }),
    ensures
        ({
            let report = durability_findings(acked, seen);
            &&& findings::details(report, ViolationKind::AckedEventLost) == acked.filter_map(lost)
            &&& forall|k: ViolationKind|
                k != ViolationKind::AckedEventLost ==> #[trigger] findings::details(report, k)
                    == Seq::<Seq<char>>::empty()
            &&& forall|p: Coverage| #[trigger]
                findings::observations(report, p) == Seq::<bool>::empty()
        }),
    decreases acked.len(),
{
    findings::lemma_report_of_one(FindingView::Observed(Coverage::UncommittedTailSurvived, true));
    if acked.len() > 0 {
        let front = acked.drop_last();
        let n = acked.last();
        lemma_durability_report(front, seen, lost);
        findings::lemma_report_of_breach(
            !seen.contains(n),
            ViolationKind::AckedEventLost,
            event_lost_detail(n),
        );
        findings::lemma_reports_concat(
            durability_findings(front, seen),
            findings::breach_if(
                !seen.contains(n),
                ViolationKind::AckedEventLost,
                event_lost_detail(n),
            ),
        );
        assert(lost(n) is Some <==> !seen.contains(n));
        assert(findings::details(durability_findings(acked, seen), ViolationKind::AckedEventLost)
            =~= acked.filter_map(lost));
    }
}

/// The breaches that the event log check reports, over the events themselves:
/// one for each acknowledged number that no event on disk carries, in the order
/// of the acknowledgements, and one when there are events and the head is not at
/// or past every one of them, with the newest of them. It observes whether more
/// events carry a number than were acknowledged. Nothing else is reported.
pub proof fn law_eventlog_breaches(
    events: Seq<EventRecord>,
    survey: EventSurvey,
    acked: Seq<u64>,
    head: RecordHead,
)
    requires
        survey.seen@ == numbers_logged(events),
        match survey.newest {
            Some(id) => is_newest(events, id),
            None => events.len() == 0,
        },
    ensures
        ({
            let report = survey.findings(acked, head);
            let lost = acked.filter_map(
                |n: u64|
                    if forall|i: int|
                        0 <= i < events.len() ==> (#[trigger] events[i]).data.probe_number() != Some(n) {
                        Some(
                            "event seq="@ + text::decimal(n as nat)
                                + " was acknowledged but is gone after reopen"@,
                        )
                    } else {
                        None
                    },
            );
            let behind = exists|i: int|
                0 <= i < events.len() && !(head.order matches Some(at) && at >= (
                #[trigger] events[i]).id.order);
            let stale = findings::details(report, ViolationKind::HeadBehindEvents);
            &&& findings::details(report, ViolationKind::AckedEventLost) == lost
            &&& stale.len() == (if behind {
                1nat
            } else {
                0nat
            })
            &&& behind ==> exists|i: int|
                0 <= i < events.len() && stale[0] == "record head "@ + head.rendering@
                    + " but events on disk reach "@ + (#[trigger] events[i]).id.text@ && forall|j: int|
                    0 <= j < events.len() ==> (#[trigger] events[j]).id.order <= events[i].id.order
            &&& findings::violation_count(report) == lost.len() + stale.len()
            &&& findings::observations(report, Coverage::UncommittedTailSurvived) == seq![
                events.filter(|e: EventRecord| e.data.probe_number() is Some).len() > acked.len(),
            ]
            &&& findings::no_violation(report) <==> {
                &&& forall|k: int|
                    0 <= k < acked.len() ==> exists|i: int|
                        0 <= i < events.len() && (#[trigger] events[i]).data.probe_number() == Some(
                            #[trigger] acked[k],
                        )
                &&& forall|i: int|
                    0 <= i < events.len() ==> (head.order matches Some(at) && at >= (
                    #[trigger] events[i]).id.order)
            }
        }),
{
    let seen = survey.seen@;
    let report = survey.findings(acked, head);
    let lost = |n: u64|
        if forall|i: int|
            0 <= i < events.len() ==> (#[trigger] events[i]).data.probe_number() != Some(n) {
            Some(
                "event seq="@ + text::decimal(n as nat) + " was acknowledged but is gone after reopen"@,
            )
        } else {
            None
        };
    assert forall|n: u64| #[trigger] lost(n) == (if !seen.contains(n) {
        Some(event_lost_detail(n))
    } else {
        None
    }) by {
        law_seen_numbers_are_on_disk(events, n);
    }
    law_seen_numbers_are_on_disk(events, 0);
    lemma_durability_report(acked, seen, lost);
    let a = durability_findings(acked, seen);
    let o = FindingView::Observed(Coverage::UncommittedTailSurvived, seen.len() > acked.len());
    let stale = head_behind(head.order, survey.newest_order());
    let detail = head_behind_detail(head.rendering@, survey.newest_text());
    let c = findings::breach_if(stale, ViolationKind::HeadBehindEvents, detail);
    findings::lemma_report_of_one(o);
    findings::lemma_report_of_breach(stale, ViolationKind::HeadBehindEvents, detail);
    findings::lemma_reports_concat(a, seq![o]);
    findings::lemma_reports_concat(a + seq![o], c);
    findings::law_every_breach_counts(report);
    law_eventlog_check_is_exact(events, survey, acked, head);
    assert(findings::details(report, ViolationKind::AckedEventLost) =~= acked.filter_map(lost));
    let behind = exists|i: int|
        0 <= i < events.len() && !(head.order matches Some(at) && at >= (
        #[trigger] events[i]).id.order);
    if let Some(id) = survey.newest {
        let k = choose|k: int|
            0 <= k < events.len() && (#[trigger] events[k]).id.order == id.order
                && events[k].id.text@ == id.text@;
        assert(events[k].id.order == id.order);
        assert(behind == stale);
        if behind {
            let told = findings::details(report, ViolationKind::HeadBehindEvents);
            assert(told[0] == detail);
            assert(told[0] == "record head "@ + head.rendering@ + " but events on disk reach "@
                + events[k].id.text@);
        }
    } else {
        assert(!behind && !stale);
    }
    assert forall|k: int| 0 <= k < acked.len() implies (numbers_logged(events).contains(
        #[trigger] acked[k],
    ) <==> exists|i: int|
        0 <= i < events.len() && (#[trigger] events[i]).data.probe_number() == Some(acked[k])) by {
        law_seen_numbers_are_on_disk(events, acked[k]);
    }
}

/// A batch holds the numbers that follow the last one given out, one by one, and
/// two batches in a row hold what one as long as both would.
pub proof fn law_batches_run_on(last: u64, m: nat, n: nat)
    requires
        last + m + n <= u64::MAX,
    ensures
        numbers_after(last, n).len() == n,
        forall|i: int| 0 <= i < n ==> #[trigger] numbers_after(last, n)[i] == last + 1 + i,
        numbers_after(last, m + n) == numbers_after(last, m) + numbers_after((last + m) as u64, n),
{
    assert(numbers_after(last, m + n) =~= numbers_after(last, m) + numbers_after(
        (last + m) as u64,
        n,
    ));
}

/// What an append draws: a batch of one to four, a cut in 350 of a thousand
/// cases, and its time of up to eight milliseconds only then.
pub proof fn law_append_draws(s: u64)
    ensures
        batch_size_drawn(s) == 1 + prng::draw(s, 0) % 4,
        cut_drawn(s) == (if prng::draw(s, 1) % 1000 < 350 {
            Some(prng::draw(s, 2) % 9)
        } else {
            None
        }),
        append_draws(s) == (if cut_drawn(s) is Some {
            3nat
        } else {
            2nat
        }),
{
}

/// The scenario appends fourteen batches.
pub proof fn law_append_rounds()
    ensures
        APPEND_ROUNDS == 14,
{
}

} // verus!
