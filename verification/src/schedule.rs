//! The schedule notation of the workload: `@every <n>s` for recurring tasks
//! and `@at <instant>` for one-shots.

use vstd::prelude::*;
use crate::text;
use crate::text::{chars_of, decimal_text, parse_unsigned};

verus! {

/// The text of a schedule that recurs every `secs` seconds.
pub open spec fn every_form(secs: nat) -> Seq<char> {
    "@every "@ + text::decimal(secs) + "s"@
}

/// The numeral of `n`, padded with a zero to two places.
pub open spec fn two_places(n: nat) -> Seq<char> {
    if n < 10 {
        "0"@ + text::decimal(n)
    } else {
        text::decimal(n)
    }
}

/// The text of a schedule that fires once, `secs` seconds into the first
/// minute of the epoch.
pub open spec fn at_form(secs: nat) -> Seq<char> {
    "@at 1970-01-01T00:00:"@ + two_places(secs) + "Z"@
}

/// The period in seconds that a schedule text states, if it is an `@every` one.
pub open spec fn every_secs(s: Seq<char>) -> Option<u64> {
    let prefix = "@every "@;
    if prefix.is_prefix_of(s) {
        let rest = s.skip(prefix.len() as int);
        if rest.len() > 0 && rest.last() == 's' {
            text::unsigned_value(rest.drop_last())
        } else {
            None
        }
    } else {
        None
    }
}

/// Writes a recurring schedule.
pub fn every_schedule(secs: u64) -> (r: String)
    ensures
        r@ == every_form(secs as nat),
{
    let mut r = "@every ".to_owned();
    r.append(decimal_text(secs).as_str());
    r.append("s");
    r
}

/// Writes a one-shot schedule.
pub fn at_schedule(secs: u64) -> (r: String)
    ensures
        r@ == at_form(secs as nat),
{
    let mut r = "@at 1970-01-01T00:00:".to_owned();
    if secs < 10 {
        r.append("0");
    }
    r.append(decimal_text(secs).as_str());
    r.append("Z");
    assert(r@ =~= at_form(secs as nat));
    r
}

/// Reads the period of an `@every` schedule.
pub fn parse_every_secs(schedule: &str) -> (r: Option<u64>)
    ensures
        r == every_secs(schedule@),
{
    let chars = chars_of(schedule);
    let prefix = chars_of("@every ");
    let n = prefix.len();
    if chars.len() < n {
        return None;
    }
    let mut i: usize = 0;
    while i < n
        invariant
            n == prefix@.len(),
            n <= chars@.len(),
            prefix@ == "@every "@,
            chars@ == schedule@,
            i <= n,
            forall|j: int| 0 <= j < i ==> prefix@[j] == chars@[j],
        decreases n - i,
    {
        if chars[i] != prefix[i] {
            assert(!"@every "@.is_prefix_of(schedule@));
            return None;
        }
        i = i + 1;
    }
    assert("@every "@.is_prefix_of(schedule@)) by {
        assert(chars@.take(n as int) =~= prefix@);
    }
    let len = chars.len();
    if len == n || chars[len - 1] != 's' {
        return None;
    }
    assert(schedule@.skip(n as int).drop_last() =~= chars@.subrange(n as int, len - 1));
    parse_unsigned(&chars, n, len - 1)
}

/// Reading the period back off a recurring schedule gives the period it was
/// written for.
pub proof fn law_every_round_trip(secs: u64)
    ensures
        every_secs(every_form(secs as nat)) == Some(secs),
{
    reveal_strlit("@every ");
    reveal_strlit("s");
    let n = text::decimal(secs as nat);
    let s = every_form(secs as nat);
    assert(s.take(7) =~= "@every "@);
    assert("@every "@.is_prefix_of(s));
    assert(s.skip(7).drop_last() =~= n);
    text::lemma_unsigned_round_trip(secs);
}

/// A one-shot schedule states no period.
pub proof fn law_one_shot_has_no_period(secs: nat)
    ensures
        every_secs(at_form(secs)) is None,
{
    reveal_strlit("@every ");
    reveal_strlit("@at 1970-01-01T00:00:");
    assert(at_form(secs)[1] == 'a');
    if "@every "@.is_prefix_of(at_form(secs)) {
        assert(at_form(secs).take(7)[1] == 'e');
    }
}

/// A schedule states a period exactly when it is a numeral between the words
/// `@every ` and `s`: then the period is the number.
pub proof fn law_periods_stand_between(s: Seq<char>, n: u64)
    ensures
        every_secs(s) == Some(n) <==> exists|t: Seq<char>|
            s == "@every "@ + t + "s"@ && #[trigger] text::unsigned_value(t) == Some(n),
{
    reveal_strlit("@every ");
    reveal_strlit("s");
    if every_secs(s) == Some(n) {
        let t = s.skip(7).drop_last();
        assert(s.take(7) =~= "@every "@);
        assert(s.skip(7) =~= t + "s"@);
        assert(s =~= "@every "@ + t + "s"@);
        assert(text::unsigned_value(t) == Some(n));
    }
    if exists|t: Seq<char>|
        s == "@every "@ + t + "s"@ && #[trigger] text::unsigned_value(t) == Some(n) {
        let t = choose|t: Seq<char>|
            s == "@every "@ + t + "s"@ && #[trigger] text::unsigned_value(t) == Some(n);
        assert(s.take(7) =~= "@every "@);
        assert("@every "@.is_prefix_of(s));
        assert(s.skip(7).drop_last() =~= t);
    }
}

/// How schedules are written: a recurring one with its period in seconds, a
/// one-shot with the second of the first minute in two digits at least.
pub proof fn law_schedules_are_written_in_full(secs: nat)
    ensures
        every_form(secs) == "@every "@ + text::decimal(secs) + "s"@,
        secs < 10 ==> at_form(secs) == "@at 1970-01-01T00:00:0"@ + text::decimal(secs) + "Z"@,
        secs >= 10 ==> at_form(secs) == "@at 1970-01-01T00:00:"@ + text::decimal(secs) + "Z"@,
        text::digits_value(at_form(secs).skip(21).drop_last()) == secs,
        10 <= secs < 100 ==> at_form(secs).len() == 24,
        secs < 10 ==> at_form(secs).len() == 24,
{
    reveal_strlit("@at 1970-01-01T00:00:");
    reveal_strlit("@at 1970-01-01T00:00:0");
    reveal_strlit("0");
    reveal_strlit("Z");
    assert("@at 1970-01-01T00:00:"@ + "0"@ =~= "@at 1970-01-01T00:00:0"@);
    let n = text::decimal(secs);
    text::lemma_decimal_denotes(secs);
    assert(at_form(secs).skip(21).drop_last() =~= two_places(secs));
    if secs < 10 {
        assert(at_form(secs) =~= "@at 1970-01-01T00:00:0"@ + n + "Z"@);
        assert(two_places(secs).drop_last() =~= "0"@);
        reveal_with_fuel(text::digits_value, 3);
        assert("0"@.drop_last() =~= Seq::<char>::empty());
    } else if secs < 100 {
        reveal_with_fuel(text::decimal, 2);
    }
}

} // verus!
