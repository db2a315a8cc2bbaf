//! The decisions of the driver's scenarios. Every one is drawn from the run
//! seed; what the driver learns from the outside is only how a pass ended.

use vstd::prelude::*;
use crate::prng;
use crate::prng::Prng;
use crate::text;
use crate::text::decimal_text;

verus! {

broadcast use {prng::lemma_advance_compose, prng::lemma_draw_compose};

/// How many recovery rounds follow the scheduler scenario.
pub const QUIESCENCE_ROUNDS: u32 = 3;

/// How often a call is tried again before its failure stands.
pub const RETRY_LIMIT: u32 = 25;

/// How long to wait before a call is tried again, in milliseconds.
pub const RETRY_DELAY_MS: u64 = 50;

/// How many delivery rounds the outbox scenario has.
pub const OUTBOX_ROUNDS: u32 = 24;

/// How many clean rounds drain the outbox at most.
pub const DRAIN_ROUNDS: u32 = 8;

/// How many ack decisions a delivery round draws.
pub const DECISIONS_PER_ROUND: usize = 32;

/// How long an abandoned wakeup lock is left to age, in seconds: past the half
/// hour after which a lock counts as stale.
pub const STALE_LOCK_AGE_SECS: u64 = 1860;

/// How many wakeups race for an abandoned lock.
pub const LOCK_WAITERS: u32 = 3;

/// What the driver does in one scheduler pass.
#[derive(Clone, Copy, Debug, PartialEq, Eq, Structural)]
pub struct PassPlan {
    /// Whether the runner starts anew, and redelivers unconfirmed wakeups first.
    pub redeliver: bool,
    /// When the power is cut, in milliseconds, if it is.
    pub cut_after_ms: Option<u64>,
}

/// How a scheduler pass ended.
#[derive(Clone, Copy, Debug, PartialEq, Eq, Structural)]
pub enum PassEnd {
    Completed,
    Errored,
    PowerCut,
}

/// The scheduler scenario: how many passes are still to come, and whether the
/// last one was cut off.
#[derive(Clone, Copy, Debug, PartialEq, Eq, Structural)]
pub struct SchedulerScenario {
    pub passes_left: u64,
    pub crashed_last_pass: bool,
}

impl SchedulerScenario {
    /// How many draws decide whether the runner starts anew: none after a cut,
    /// when it does in any case.
    pub open spec fn restart_draws(self) -> nat {
        if self.crashed_last_pass {
            0
        } else {
            1
        }
    }

    /// The plan of the next pass, drawn from state `s`.
    pub open spec fn plan_drawn(self, s: u64) -> PassPlan {
        let k = self.restart_draws();
        PassPlan {
            redeliver: self.crashed_last_pass || prng::hits(prng::draw(s, 0), 150),
            cut_after_ms: if prng::hits(prng::draw(s, k), 350) {
                Some(prng::in_range(prng::draw(s, k + 1), 1, 900))
            } else {
                None
            },
        }
    }

    /// How many draws that plan takes.
    pub open spec fn plan_draws(self, s: u64) -> nat {
        if prng::hits(prng::draw(s, self.restart_draws()), 350) {
            self.restart_draws() + 2
        } else {
            self.restart_draws() + 1
        }
    }

    /// The scenario once a pass is under way.
    pub open spec fn under_way(self) -> SchedulerScenario {
        SchedulerScenario { passes_left: (self.passes_left - 1) as u64, crashed_last_pass: false }
    }

    /// The scenario once a pass has ended.
    pub open spec fn ended(self, end: PassEnd) -> SchedulerScenario {
        SchedulerScenario { crashed_last_pass: end == PassEnd::PowerCut, ..self }
    }

    /// A scenario of eight to sixteen passes.
    pub fn draw(rng: &mut Prng) -> (r: Self)
        ensures
            r.passes_left == prng::in_range(prng::draw(old(rng).0, 0), 8, 16),
            !r.crashed_last_pass,
            final(rng).0 == prng::advance(old(rng).0, 1),
    {
        SchedulerScenario { passes_left: rng.range(8, 16), crashed_last_pass: false }
    }

    /// Draws what to do in the next pass, as long as there is one.
    pub fn next_pass(&mut self, rng: &mut Prng) -> (r: Option<PassPlan>)
        ensures
            match r {
                Some(plan) => {
                    &&& old(self).passes_left > 0
                    &&& plan == old(self).plan_drawn(old(rng).0)
                    &&& *final(self) == old(self).under_way()
                    &&& final(rng).0 == prng::advance(
                        old(rng).0,
                        old(self).plan_draws(old(rng).0),
                    )
                },
                None => {
                    &&& old(self).passes_left == 0
                    &&& *final(self) == *old(self)
                    &&& final(rng).0 == old(rng).0
                },
            },
    {
        if self.passes_left == 0 {
            return None;
        }
        proof {
            assert(prng::advance(rng.0, 0) == rng.0);
        }
        let redeliver = self.crashed_last_pass || rng.chance(150);
        let cut_after_ms = if rng.chance(350) {
            Some(rng.range(1, 900))
        } else {
            None
        };
        self.passes_left = self.passes_left - 1;
        self.crashed_last_pass = false;
        Some(PassPlan { redeliver, cut_after_ms })
    }

    /// Takes note of how a pass ended, and draws how far the clock advances
    /// before the next: now and then past the lease, so that an orphaned claim
    /// runs again.
    pub fn pass_ended(&mut self, rng: &mut Prng, end: PassEnd, lease_ms: u64) -> (r: u64)
        requires
            lease_ms <= u64::MAX - 5000,
        ensures
            r == pause_drawn(old(rng).0, lease_ms),
            *final(self) == old(self).ended(end),
            final(rng).0 == prng::advance(old(rng).0, 2),
    {
        self.crashed_last_pass = end == PassEnd::PowerCut;
        if rng.chance(60) {
            lease_ms + rng.range(1, 5000)
        } else {
            rng.range(300, 4000)
        }
    }
}

/// How far the clock advances between two passes, drawn from state `s`.
pub open spec fn pause_drawn(s: u64, lease_ms: u64) -> u64 {
    if prng::hits(prng::draw(s, 0), 60) {
        (lease_ms + prng::in_range(prng::draw(s, 1), 1, 5000)) as u64
    } else {
        prng::in_range(prng::draw(s, 1), 300, 4000)
    }
}

/// A runner that was cut off recovers as a runner does on startup: the pass
/// after a power cut redelivers first, whatever is drawn.
pub proof fn law_cut_is_followed_by_redelivery(scenario: SchedulerScenario, s: u64)
    ensures
        scenario.ended(PassEnd::PowerCut).plan_drawn(s).redeliver,
{
}

/// How long recovery round `round` waits: the first one outlasts a lease.
pub fn quiescence_wait_ms(round: u32, lease_ms: u64) -> (r: u64)
    requires
        lease_ms <= u64::MAX - 1000,
    ensures
        r == (if round == 0 {
            lease_ms + 1000
        } else {
            2000
        }),
{
    if round == 0 {
        lease_ms + 1000
    } else {
        2000
    }
}

/// What the recovery rounds came to: clean until a step of one fails for good.
#[derive(Clone, Copy, Debug, PartialEq, Eq, Structural)]
pub struct Quiescence {
    pub clean: bool,
}

impl Quiescence {
    /// Recovery before its first step.
    pub fn new() -> (r: Self)
        ensures
            r.clean,
    {
        Quiescence { clean: true }
    }

    /// Takes note of a step that failed or not.
    pub fn note(&mut self, failed: bool)
        ensures
            *final(self) == old(self).after_step(failed),
    {
        if failed {
            self.clean = false;
        }
    }

    /// Recovery after another step.
    pub open spec fn after_step(self, failed: bool) -> Quiescence {
        Quiescence { clean: self.clean && !failed }
    }

    /// Recovery after steps that failed or not.
    pub open spec fn after_steps(self, failed: Seq<bool>) -> Quiescence
        decreases failed.len(),
    {
        if failed.len() == 0 {
            self
        } else {
            self.after_steps(failed.drop_last()).after_step(failed.last())
        }
    }
}

/// Recovery counts as clean exactly when no step of it failed.
pub proof fn law_clean_means_no_step_failed(failed: Seq<bool>)
    ensures
        (Quiescence { clean: true }).after_steps(failed).clean <==> !failed.contains(true),
    decreases failed.len(),
{
    if failed.len() > 0 {
        let front = failed.drop_last();
        law_clean_means_no_step_failed(front);
        if front.contains(true) {
            let i = choose|i: int| 0 <= i < front.len() && front[i] == true;
            assert(failed[i] == true);
        }
        if failed.contains(true) && !failed.last() {
            let i = choose|i: int| 0 <= i < failed.len() && failed[i] == true;
            assert(front[i] == true);
        }
        if failed.last() {
            assert(failed[failed.len() - 1] == true);
        }
    }
}

/// Whether another clean round drains the outbox after round `round`, which
/// claimed that many messages: until a round claims none or the rounds are used
/// up.
pub fn drain_again(round: u32, claimed: usize) -> (r: bool)
    ensures
        r == (claimed > 0 && round + 1 < DRAIN_ROUNDS),
{
    claimed > 0 && round < DRAIN_ROUNDS - 1
}

/// A call that is tried again when it fails.
#[derive(Clone, Copy, Debug, PartialEq, Eq, Structural)]
pub struct Retry {
    pub tries: u32,
}

impl Retry {
    /// A call that was not tried again yet.
    pub fn new() -> (r: Self)
        ensures
            r.tries == 0,
    {
        Retry { tries: 0 }
    }

    /// Whether to try again after an attempt that failed or not.
    pub fn again(&mut self, failed: bool) -> (r: bool)
        ensures
            r == (failed && old(self).tries < RETRY_LIMIT),
            *final(self) == (if failed {
                old(self).failed()
            } else {
                *old(self)
            }),
    {
        if failed && self.tries < RETRY_LIMIT {
            self.tries = self.tries + 1;
            true
        } else {
            false
        }
    }
}

impl Retry {
    /// The call after another failed attempt.
    pub open spec fn failed(self) -> Retry {
        if self.tries < RETRY_LIMIT {
            Retry { tries: (self.tries + 1) as u32 }
        } else {
            self
        }
    }

    /// The call after `n` failed attempts in a row.
    pub open spec fn failed_times(self, n: nat) -> Retry
        decreases n,
    {
        if n == 0 {
            self
        } else {
            self.failed_times((n - 1) as nat).failed()
        }
    }
}

/// However often a call fails, it is tried again no more than the limit allows,
/// and that often if it keeps failing.
pub proof fn law_retries_are_bounded(n: nat)
    ensures
        (Retry { tries: 0 }).failed_times(n).tries == (if n < RETRY_LIMIT {
            n
        } else {
            RETRY_LIMIT as nat
        }),
    decreases n,
{
    if n > 0 {
        law_retries_are_bounded((n - 1) as nat);
    }
}

/// What the driver does in one delivery round of the outbox.
pub struct RoundPlan {
    /// Whether each claimed message is refused, in turn.
    pub nacks: Vec<bool>,
    /// When the power is cut, in milliseconds, if it is.
    pub cut_after_ms: Option<u64>,
}

impl RoundPlan {
    /// Whether this is the round drawn from state `s`.
    pub open spec fn drawn_from(self, s: u64) -> bool {
        &&& self.nacks@.len() == DECISIONS_PER_ROUND
        &&& forall|i: int|
            0 <= i < self.nacks@.len() ==> #[trigger] self.nacks@[i] == prng::hits(
                prng::draw(s, i as nat),
                400,
            )
        &&& self.cut_after_ms == (if prng::hits(prng::draw(s, 32), 300) {
            Some(prng::in_range(prng::draw(s, 33), 1, 60))
        } else {
            None
        })
    }

    /// Draws a round. When the power would be cut is drawn even if it is not.
    pub fn draw(rng: &mut Prng) -> (r: Self)
        ensures
            r.drawn_from(old(rng).0),
            final(rng).0 == prng::advance(old(rng).0, 34),
    {
        let ghost s = rng.0;
        let mut nacks: Vec<bool> = Vec::new();
        let mut i: usize = 0;
        assert(prng::advance(s, 0) == s);
        while i < DECISIONS_PER_ROUND
            invariant
                i <= DECISIONS_PER_ROUND,
                nacks@.len() == i,
                rng.0 == prng::advance(s, i as nat),
                forall|k: int|
                    0 <= k < i ==> #[trigger] nacks@[k] == prng::hits(
                        prng::draw(s, k as nat),
                        400,
                    ),
            decreases DECISIONS_PER_ROUND - i,
        {
            nacks.push(rng.chance(400));
            i = i + 1;
        }
        let cut = rng.chance(300);
        let cut_after = rng.range(1, 60);
        RoundPlan {
            nacks,
            cut_after_ms: if cut {
                Some(cut_after)
            } else {
                None
            },
        }
    }

    /// Whether the claimed message in place `index` is refused. The decisions
    /// repeat when there are more messages than decisions.
    pub fn refuses(&self, index: usize) -> (r: bool)
        requires
            self.nacks@.len() > 0,
        ensures
            r == self.nacks@[index as int % self.nacks@.len() as int],
    {
        self.nacks[index % self.nacks.len()]
    }
}

/// How many messages the outbox scenario enqueues.
pub fn draw_message_count(rng: &mut Prng) -> (r: u64)
    ensures
        r == prng::in_range(prng::draw(old(rng).0, 0), 4, 10),
        final(rng).0 == prng::advance(old(rng).0, 1),
{
    rng.range(4, 10)
}

/// How long the driver waits between two delivery rounds, in milliseconds.
pub fn draw_round_pause_ms(rng: &mut Prng) -> (r: u64)
    ensures
        r == prng::in_range(prng::draw(old(rng).0, 0), 20, 200),
        final(rng).0 == prng::advance(old(rng).0, 1),
{
    rng.range(20, 200)
}

/// The text of enqueued message `index`.
pub fn message_text(index: u64) -> (r: String)
    ensures
        r@ == "message-"@ + text::decimal(index as nat),
{
    let mut r = "message-".to_owned();
    r.append(decimal_text(index).as_str());
    r
}

/// The prompt of the wakeup in place `index` that races for an abandoned lock.
pub fn lock_probe_prompt(index: u32) -> (r: String)
    ensures
        r@ == "stale-lock-probe-"@ + text::decimal(index as nat),
{
    let mut r = "stale-lock-probe-".to_owned();
    r.append(decimal_text(index as u64).as_str());
    r
}

/// The name of a conversation's wakeup lock file.
pub fn lock_file_name(conversation_id: &str) -> (r: String)
    ensures
        r@ == conversation_id@ + ".lock"@,
{
    let mut r = conversation_id.to_owned();
    r.append(".lock");
    r
}

/// What a pass draws, by remainders of a thousand: a clean restart in 150 cases,
/// not drawn at all after a cut, which is always a restart; then a cut in 350
/// cases; then, only for a cut, its time of one to 900 milliseconds.
pub proof fn law_pass_draws(scenario: SchedulerScenario, s: u64)
    ensures
        ({
            let plan = scenario.plan_drawn(s);
            let k: nat = if scenario.crashed_last_pass {
                0
            } else {
                1
            };
            &&& scenario.crashed_last_pass ==> plan.redeliver
            &&& !scenario.crashed_last_pass ==> (plan.redeliver <==> prng::draw(s, 0) % 1000 < 150)
            &&& plan.cut_after_ms is Some <==> prng::draw(s, k) % 1000 < 350
            &&& plan.cut_after_ms matches Some(ms) ==> ms == 1 + prng::draw(s, k + 1) % 900
            &&& scenario.plan_draws(s) == k + 1 + (if plan.cut_after_ms is Some {
                1nat
            } else {
                0nat
            })
        }),
{
}

/// The scenario after `n` passes that ended as told.
pub open spec fn after_passes(scenario: SchedulerScenario, ends: Seq<PassEnd>) -> SchedulerScenario
    decreases ends.len(),
{
    if ends.len() == 0 {
        scenario
    } else {
        after_passes(scenario, ends.drop_last()).under_way().ended(ends.last())
    }
}

/// The passes are counted down one by one, however they end, and only a power cut
/// in the very last one makes the next a restart.
pub proof fn law_passes_count_down(scenario: SchedulerScenario, ends: Seq<PassEnd>)
    requires
        ends.len() <= scenario.passes_left,
    ensures
        after_passes(scenario, ends).passes_left == scenario.passes_left - ends.len(),
        ends.len() > 0 ==> (after_passes(scenario, ends).crashed_last_pass <==> ends.last()
            == PassEnd::PowerCut),
        scenario.passes_left > 0 ==> !scenario.under_way().crashed_last_pass,
    decreases ends.len(),
{
    if ends.len() > 0 {
        law_passes_count_down(scenario, ends.drop_last());
    }
}

/// How far the clock advances: in 60 cases of a thousand one to 5000 milliseconds
/// past the lease, otherwise 300 to 4000 milliseconds.
pub proof fn law_pause_draws(s: u64, lease_ms: u64)
    requires
        lease_ms <= u64::MAX - 5000,
    ensures
        prng::draw(s, 0) % 1000 < 60 ==> pause_drawn(s, lease_ms) == lease_ms + 1 + prng::draw(s, 1)
            % 5000,
        prng::draw(s, 0) % 1000 >= 60 ==> pause_drawn(s, lease_ms) == 300 + prng::draw(s, 1) % 3701,
{
}

/// A delivery round refuses each of 32 messages in turn in 400 cases of a
/// thousand, by a draw of its own, and is cut in 300 cases, after one to 60
/// milliseconds.
pub proof fn law_round_draws(plan: RoundPlan, s: u64)
    requires
        plan.drawn_from(s),
    ensures
        plan.nacks@.len() == 32,
        forall|i: int|
            0 <= i < 32 ==> (#[trigger] plan.nacks@[i] <==> prng::draw(s, i as nat) % 1000 < 400),
        plan.cut_after_ms is Some <==> prng::draw(s, 32) % 1000 < 300,
        plan.cut_after_ms matches Some(ms) ==> ms == 1 + prng::draw(s, 33) % 60,
{
}

/// A call that keeps failing is tried 25 times again, and one failed attempt uses
/// up one of these; recovery is clean after a step exactly when it was before and
/// the step did not fail.
pub proof fn law_attempts_are_used_up(retry: Retry, quiescence: Quiescence, failed: bool)
    ensures
        retry.tries < 25 ==> retry.failed().tries == retry.tries + 1,
        retry.tries >= 25 ==> retry.failed().tries == retry.tries,
        quiescence.after_step(failed).clean <==> quiescence.clean && !failed,
{
}

/// How long the scenarios are: three recovery rounds, 24 delivery rounds and up to
/// eight that drain, with a pause of 50 milliseconds before each new attempt; and
/// the abandoned lock ages past the half hour after which it is stale, by a
/// minute, before three wakeups race for it.
pub proof fn law_scenario_lengths()
    ensures
        QUIESCENCE_ROUNDS == 3,
        OUTBOX_ROUNDS == 24,
        DRAIN_ROUNDS == 8,
        RETRY_DELAY_MS == 50,
        STALE_LOCK_AGE_SECS == 31 * 60,
        LOCK_WAITERS == 3,
{
}

} // verus!
