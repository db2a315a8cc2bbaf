//! The outcome of a run: the digest of what happened and the closing line.

use vstd::prelude::*;
use crate::text;
use crate::text::{chars_of, decimal_text, join_texts, quoted_text, same_text};

verus! {

/// The task that a wakeup prompt names: what stands between its first two
/// backticks.
pub open spec fn task_name(prompt: Seq<char>) -> Option<Seq<char>> {
    match prompt.index_of_first('`') {
        None => None,
        Some(i) => {
            let rest = prompt.skip(i + 1);
            match rest.index_of_first('`') {
                None => None,
                Some(j) => Some(rest.take(j)),
            }
        },
    }
}

/// Finds the first backtick of `chars` at or after `from`.
fn find_backtick(chars: &Vec<char>, from: usize) -> (r: Option<usize>)
    requires
        from <= chars@.len(),
    ensures
        match r {
            Some(i) => from <= i < chars@.len() && chars@.skip(from as int).index_of_first('`')
                == Some(i - from),
            None => chars@.skip(from as int).index_of_first('`') is None,
        },
{
    let ghost tail = chars@.skip(from as int);
    proof {
        tail.index_of_first_ensures('`');
    }
    let mut i: usize = from;
    while i < chars.len()
        invariant
            from <= i <= chars@.len(),
            tail == chars@.skip(from as int),
            forall|j: int| 0 <= j < i - from ==> tail[j] != '`',
        decreases chars@.len() - i,
    {
        assert(tail[i - from] == chars@[i as int]);
        if chars[i] == '`' {
            proof {
                tail.index_of_first_ensures('`');
                assert(tail.contains('`'));
            }
            return Some(i);
        }
        i = i + 1;
    }
    None
}

/// Pulls the task name back out of a wakeup prompt.
pub fn task_name_of(prompt: &str) -> (r: Option<&str>)
    ensures
        match r {
            Some(name) => task_name(prompt@) == Some(name@),
            None => task_name(prompt@) is None,
        },
{
    let chars = chars_of(prompt);
    assert(chars@.skip(0) =~= chars@);
    match find_backtick(&chars, 0) {
        None => None,
        Some(i) => {
            assert(i < chars.len());
            let start: usize = i + 1;
            match find_backtick(&chars, start) {
                None => None,
                Some(j) => {
                    let name = prompt.substring_char(start, j);
                    assert(name@ =~= prompt@.skip(start as int).take(j - start));
                    Some(name)
                },
            }
        },
    }
}

/// A prompt that embeds a task name in backticks names that task, whatever
/// follows, as long as no backtick comes before.
pub proof fn law_task_name_is_recovered(before: Seq<char>, name: Seq<char>, after: Seq<char>)
    requires
        !before.contains('`'),
        !name.contains('`'),
    ensures
        task_name(before + seq!['`'] + name + seq!['`'] + after) == Some(name),
{
    let prompt = before + seq!['`'] + name + seq!['`'] + after;
    let i = before.len() as int;
    prompt.index_of_first_ensures('`');
    assert(prompt[i] == '`');
    assert forall|j: int| 0 <= j < i implies prompt[j] != '`' by {
        assert(prompt[j] == before[j]);
    }
    assert(prompt.index_of_first('`') == Some(i));
    let rest = prompt.skip(i + 1);
    assert(rest =~= name + seq!['`'] + after);
    let j = name.len() as int;
    rest.index_of_first_ensures('`');
    assert(rest[j] == '`');
    assert forall|k: int| 0 <= k < j implies rest[k] != '`' by {
        assert(rest[k] == name[k]);
    }
    assert(rest.index_of_first('`') == Some(j));
    assert(rest.take(j) =~= name);
}

/// The dictionary order of texts by their characters.
pub open spec fn precedes(a: Seq<char>, b: Seq<char>) -> bool
    decreases b.len(),
{
    &&& b.len() > 0
    &&& (a.len() == 0 || a[0] < b[0] || (a[0] == b[0] && precedes(a.skip(1), b.skip(1))))
}

proof fn lemma_precedes_irreflexive(a: Seq<char>)
    ensures
        !precedes(a, a),
    decreases a.len(),
{
    if a.len() > 0 {
        lemma_precedes_irreflexive(a.skip(1));
    }
}

proof fn lemma_precedes_transitive(a: Seq<char>, b: Seq<char>, c: Seq<char>)
    requires
        precedes(a, b),
        precedes(b, c),
    ensures
        precedes(a, c),
    decreases c.len(),
{
    if a.len() > 0 && a[0] == b[0] && b[0] == c[0] {
        lemma_precedes_transitive(a.skip(1), b.skip(1), c.skip(1));
    }
}

proof fn lemma_precedes_total(a: Seq<char>, b: Seq<char>)
    ensures
        a == b || precedes(a, b) || precedes(b, a),
    decreases a.len(),
{
    if a.len() > 0 && b.len() > 0 && a[0] == b[0] {
        lemma_precedes_total(a.skip(1), b.skip(1));
        if a.skip(1) == b.skip(1) {
            assert(a =~= seq![a[0]] + a.skip(1));
            assert(b =~= seq![b[0]] + b.skip(1));
        }
    } else if a.len() == 0 && b.len() == 0 {
        assert(a =~= b);
    }
}

/// Whether `a` comes before `b` in dictionary order.
fn comes_before(a: &str, b: &str) -> (r: bool)
    ensures
        r == precedes(a@, b@),
{
    let x = chars_of(a);
    let y = chars_of(b);
    let mut i: usize = 0;
    assert(a@.skip(0) =~= a@);
    assert(b@.skip(0) =~= b@);
    while i < x.len() && i < y.len()
        invariant
            x@ == a@,
            y@ == b@,
            i <= x@.len(),
            i <= y@.len(),
            precedes(a@, b@) == precedes(a@.skip(i as int), b@.skip(i as int)),
        decreases x@.len() - i,
    {
        if x[i] < y[i] {
            return true;
        }
        if x[i] != y[i] {
            return false;
        }
        assert(a@.skip(i as int).skip(1) =~= a@.skip(i + 1));
        assert(b@.skip(i as int).skip(1) =~= b@.skip(i + 1));
        i = i + 1;
    }
    i < y.len()
}

/// The first entry of a tally that does not come before `name`.
pub open spec fn rank(list: Seq<(Seq<char>, nat)>, name: Seq<char>) -> int
    decreases list.len(),
{
    if list.len() == 0 || !precedes(list[0].0, name) {
        0
    } else {
        1 + rank(list.skip(1), name)
    }
}

/// The tally with one more occurrence of `name`.
pub open spec fn bump(list: Seq<(Seq<char>, nat)>, name: Seq<char>) -> Seq<(Seq<char>, nat)> {
    let i = rank(list, name);
    if i < list.len() && list[i].0 == name {
        list.update(i, (name, list[i].1 + 1))
    } else {
        list.insert(i, (name, 1))
    }
}

/// How often each name occurs, in dictionary order of the names.
pub open spec fn tally(names: Seq<Seq<char>>) -> Seq<(Seq<char>, nat)>
    decreases names.len(),
{
    if names.len() == 0 {
        Seq::empty()
    } else {
        bump(tally(names.drop_last()), names.last())
    }
}

/// The name that a wakeup is counted under.
pub open spec fn counted_name(prompt: Seq<char>) -> Seq<char> {
    match task_name(prompt) {
        Some(name) => name,
        None => "?"@,
    }
}

pub open spec fn counted_names(prompts: Seq<Seq<char>>) -> Seq<Seq<char>> {
    prompts.map_values(|p: Seq<char>| counted_name(p))
}

pub open spec fn tally_entries(list: Seq<(Seq<char>, nat)>) -> Seq<Seq<char>> {
    list.map_values(|e: (Seq<char>, nat)| text::quoted(e.0) + ": "@ + text::decimal(e.1))
}

/// The digest of a run.
pub open spec fn digest_form(prompts: Seq<Seq<char>>, commands: nat) -> Seq<char> {
    "wakeups="@ + text::decimal(prompts.len()) + " commands="@ + text::decimal(commands)
        + " per_task={"@ + text::joined(tally_entries(tally(counted_names(prompts))), ", "@) + "}"@
}

/// A tally as it is kept while counting.
pub open spec fn counts(list: Seq<(String, u64)>) -> Seq<(Seq<char>, nat)> {
    list.map_values(|e: (String, u64)| (e.0@, e.1 as nat))
}

proof fn lemma_rank_is(list: Seq<(Seq<char>, nat)>, name: Seq<char>, i: int)
    requires
        0 <= i <= list.len(),
        forall|j: int| 0 <= j < i ==> precedes((#[trigger] list[j]).0, name),
        i < list.len() ==> !precedes(list[i].0, name),
    ensures
        rank(list, name) == i,
    decreases list.len(),
{
    if i > 0 {
        assert(precedes(list[0].0, name));
        let rest = list.skip(1);
        assert forall|j: int| 0 <= j < i - 1 implies precedes((#[trigger] rest[j]).0, name) by {
            assert(rest[j] == list[j + 1]);
        }
        lemma_rank_is(rest, name, i - 1);
    }
}

proof fn lemma_rank_bounds(list: Seq<(Seq<char>, nat)>, name: Seq<char>)
    ensures
        0 <= rank(list, name) <= list.len(),
        forall|j: int| 0 <= j < rank(list, name) ==> precedes((#[trigger] list[j]).0, name),
        rank(list, name) < list.len() ==> !precedes(list[rank(list, name)].0, name),
    decreases list.len(),
{
    if list.len() > 0 && precedes(list[0].0, name) {
        let rest = list.skip(1);
        lemma_rank_bounds(rest, name);
        assert forall|j: int| 0 <= j < rank(list, name) implies precedes(
            (#[trigger] list[j]).0,
            name,
        ) by {
            if j > 0 {
                assert(rest[j - 1] == list[j]);
            }
        }
    }
}

/// Counts one more occurrence of `name`.
fn count_name(list: &mut Vec<(String, u64)>, name: &str, Ghost(limit): Ghost<nat>)
    requires
        limit < u64::MAX,
        forall|i: int| 0 <= i < old(list)@.len() ==> (#[trigger] old(list)@[i]).1 <= limit,
    ensures
        counts(final(list)@) == bump(counts(old(list)@), name@),
        forall|i: int| 0 <= i < final(list)@.len() ==> (#[trigger] final(list)@[i]).1 <= limit + 1,
{
    let ghost before = counts(list@);
    let mut i: usize = 0;
    while i < list.len() && comes_before(list[i].0.as_str(), name)
        invariant
            list@ == old(list)@,
            before == counts(list@),
            i <= list@.len(),
            forall|j: int| 0 <= j < i ==> precedes((#[trigger] before[j]).0, name@),
        decreases list@.len() - i,
    {
        assert(before[i as int].0 == list@[i as int].0@);
        i = i + 1;
    }
    proof {
        if i < list@.len() {
            assert(before[i as int].0 == list@[i as int].0@);
        }
        lemma_rank_is(before, name@, i as int);
    }
    if i < list.len() && same_text(list[i].0.as_str(), name) {
        assert(list@[i as int].1 <= limit);
        let n: u64 = list[i].1 + 1;
        list.set(i, (name.to_owned(), n));
        assert(counts(list@) =~= bump(before, name@));
    } else {
        list.insert(i, (name.to_owned(), 1));
        assert(counts(list@) =~= bump(before, name@));
    }
}

/// Writes the digest of a run: how many wakeups and commands there were, and
/// how the wakeups spread over the tasks.
pub fn outcome_digest(prompts: &Vec<String>, commands: u64) -> (r: String)
    ensures
        r@ == digest_form(text::texts(prompts@), commands as nat),
{
    let ghost all = text::texts(prompts@);
    let ghost names = counted_names(all);
    let mut list: Vec<(String, u64)> = Vec::new();
    let mut i: usize = 0;
    assert(counts(list@) =~= tally(names.take(0)));
    while i < prompts.len()
        invariant
            i <= prompts.len(),
            all == text::texts(prompts@),
            names == counted_names(all),
            counts(list@) == tally(names.take(i as int)),
            forall|j: int| 0 <= j < list@.len() ==> (#[trigger] list@[j]).1 <= i,
        decreases prompts@.len() - i,
    {
        let name = match task_name_of(prompts[i].as_str()) {
            Some(found) => found,
            None => "?",
        };
        proof {
            assert(names[i as int] == counted_name(prompts@[i as int]@));
            assert(names.take(i + 1).drop_last() =~= names.take(i as int));
            assert(names.take(i + 1).last() == name@);
        }
        count_name(&mut list, name, Ghost(i as nat));
        i = i + 1;
    }
    assert(names.take(i as int) =~= names);
    let ghost entries = tally_entries(tally(names));
    let mut parts: Vec<String> = Vec::new();
    let mut k: usize = 0;
    while k < list.len()
        invariant
            k <= list@.len(),
            entries == tally_entries(counts(list@)),
            text::texts(parts@) == entries.take(k as int),
        decreases list@.len() - k,
    {
        let mut part = quoted_text(list[k].0.as_str());
        part.append(": ");
        part.append(decimal_text(list[k].1).as_str());
        let ghost before = parts@;
        parts.push(part);
        proof {
            assert(counts(list@)[k as int] == (list@[k as int].0@, list@[k as int].1 as nat));
            assert(entries[k as int] == part@);
            assert(text::texts(parts@) =~= text::texts(before).push(part@));
            assert(entries.take(k + 1) =~= entries.take(k as int).push(part@));
        }
        k = k + 1;
    }
    assert(entries.take(k as int) =~= entries);
    let mut r = "wakeups=".to_owned();
    r.append(decimal_text(prompts.len() as u64).as_str());
    r.append(" commands=");
    r.append(decimal_text(commands).as_str());
    r.append(" per_task={");
    r.append(join_texts(&parts, ", ").as_str());
    r.append("}");
    r
}

/// Whether a list is the tally of a multiset of names: strictly in dictionary
/// order, each name with the number of its occurrences, and no name left out.
pub open spec fn is_tally(
    list: Seq<(Seq<char>, nat)>,
    names: vstd::multiset::Multiset<Seq<char>>,
) -> bool {
    &&& forall|i: int, j: int|
        0 <= i < j < list.len() ==> precedes((#[trigger] list[i]).0, (#[trigger] list[j]).0)
    &&& forall|i: int|
        0 <= i < list.len() ==> (#[trigger] list[i]).1 == names.count(list[i].0) && list[i].1 > 0
    &&& forall|name: Seq<char>|
        #[trigger] names.count(name) > 0 ==> exists|i: int|
            0 <= i < list.len() && (#[trigger] list[i]).0 == name
}

proof fn lemma_bump_tallies(
    list: Seq<(Seq<char>, nat)>,
    names: vstd::multiset::Multiset<Seq<char>>,
    name: Seq<char>,
)
    requires
        is_tally(list, names),
    ensures
        is_tally(bump(list, name), names.insert(name)),
{
    let after = names.insert(name);
    let i = rank(list, name);
    let out = bump(list, name);
    lemma_rank_bounds(list, name);
    assert forall|other: Seq<char>| #[trigger] after.count(other) == names.count(other) + (if other
        == name {
        1nat
    } else {
        0nat
    }) by {
        if other == name {
            vstd::multiset::lemma_insert_increases_count_by_1(names, name);
        } else {
            vstd::multiset::lemma_insert_other_elements_unchanged(names, name, other);
        }
    }
    let found = i < list.len() && list[i].0 == name;
    if found {
        assert forall|a: int, b: int| 0 <= a < b < out.len() implies precedes(
            (#[trigger] out[a]).0,
            (#[trigger] out[b]).0,
        ) by {
            assert(out[a].0 == list[a].0 && out[b].0 == list[b].0);
        }
        assert forall|a: int| 0 <= a < out.len() implies (#[trigger] out[a]).1 == after.count(
            out[a].0,
        ) && out[a].1 > 0 by {
            assert(list[a].1 == names.count(list[a].0));
            if a != i {
                lemma_distinct(list, a, i);
            }
        }
        assert forall|other: Seq<char>| #[trigger] after.count(other) > 0 implies exists|a: int|
            0 <= a < out.len() && (#[trigger] out[a]).0 == other by {
            if other == name {
                assert(out[i].0 == name);
            } else {
                assert(names.count(other) > 0);
                let a = choose|a: int| 0 <= a < list.len() && (#[trigger] list[a]).0 == other;
                assert(out[a].0 == other);
            }
        }
    } else {
        assert forall|b: int| i <= b < list.len() implies precedes(name, (#[trigger] list[b]).0) by {
            lemma_precedes_total(name, list[i].0);
            if b > i {
                assert(precedes(list[i].0, list[b].0));
                lemma_precedes_transitive(name, list[i].0, list[b].0);
            }
        }
        assert forall|a: int| 0 <= a < list.len() implies (#[trigger] list[a]).0 != name by {
            lemma_precedes_irreflexive(name);
            if a >= i {
                assert(precedes(name, list[a].0));
            }
        }
        assert(names.count(name) == 0) by {
            if names.count(name) > 0 {
                let a = choose|a: int| 0 <= a < list.len() && (#[trigger] list[a]).0 == name;
                assert(list[a].0 != name);
            }
        }
        assert forall|a: int| 0 <= a < out.len() implies #[trigger] out[a] == (if a < i {
            list[a]
        } else if a == i {
            (name, 1nat)
        } else {
            list[a - 1]
        }) by {}
        assert forall|a: int, b: int| 0 <= a < b < out.len() implies precedes(
            (#[trigger] out[a]).0,
            (#[trigger] out[b]).0,
        ) by {
            if a < i && b < i {
                assert(precedes(list[a].0, list[b].0));
            } else if a < i && b > i {
                assert(precedes(list[a].0, list[b - 1].0));
            } else if a == i {
                assert(precedes(name, list[b - 1].0));
            } else if a > i {
                assert(precedes(list[a - 1].0, list[b - 1].0));
            } else {
                assert(precedes(list[a].0, name));
            }
        }
        assert forall|a: int| 0 <= a < out.len() implies (#[trigger] out[a]).1 == after.count(
            out[a].0,
        ) && out[a].1 > 0 by {
            if a < i {
                assert(list[a].1 == names.count(list[a].0));
                assert(list[a].0 != name);
            } else if a > i {
                assert(list[a - 1].1 == names.count(list[a - 1].0));
                assert(list[a - 1].0 != name);
            }
        }
        assert forall|other: Seq<char>| #[trigger] after.count(other) > 0 implies exists|a: int|
            0 <= a < out.len() && (#[trigger] out[a]).0 == other by {
            if other == name {
                assert(out[i].0 == name);
            } else {
                assert(names.count(other) > 0);
                let a = choose|a: int| 0 <= a < list.len() && (#[trigger] list[a]).0 == other;
                if a < i {
                    assert(out[a].0 == other);
                } else {
                    assert(out[a + 1].0 == other);
                }
            }
        }
    }
}

proof fn lemma_distinct(list: Seq<(Seq<char>, nat)>, a: int, b: int)
    requires
        0 <= a < list.len(),
        0 <= b < list.len(),
        a != b,
        forall|i: int, j: int|
            0 <= i < j < list.len() ==> precedes((#[trigger] list[i]).0, (#[trigger] list[j]).0),
    ensures
        list[a].0 != list[b].0,
{
    lemma_precedes_irreflexive(list[a].0);
    if a < b {
        assert(precedes(list[a].0, list[b].0));
    } else {
        assert(precedes(list[b].0, list[a].0));
    }
}

/// The tally lists every name that occurs, once, in dictionary order and with
/// the number of its occurrences.
pub proof fn law_tally_counts(names: Seq<Seq<char>>)
    ensures
        is_tally(tally(names), names.to_multiset()),
    decreases names.len(),
{
    names.to_multiset_ensures();
    if names.len() > 0 {
        let front = names.drop_last();
        law_tally_counts(front);
        lemma_bump_tallies(tally(front), front.to_multiset(), names.last());
        assert(front.push(names.last()) =~= names);
        vstd::seq_lib::to_multiset_build(front, names.last());
    } else {
        assert forall|name: Seq<char>| names.to_multiset().count(name) == 0 by {
            vstd::seq_lib::to_multiset_contains(names, name);
            if names.to_multiset().count(name) > 0 {
                assert(names.contains(name));
            }
        }
    }
}

/// Two tallies of the same names agree in every place.
proof fn lemma_tallies_agree(
    a: Seq<(Seq<char>, nat)>,
    b: Seq<(Seq<char>, nat)>,
    names: vstd::multiset::Multiset<Seq<char>>,
    k: int,
)
    requires
        is_tally(a, names),
        is_tally(b, names),
        0 <= k <= a.len(),
    ensures
        k <= b.len(),
        forall|i: int| 0 <= i < k ==> #[trigger] a[i] == b[i],
    decreases k,
{
    if k > 0 {
        let i = k - 1;
        lemma_tallies_agree(a, b, names, i);
        let x = a[i].0;
        assert(names.count(x) > 0);
        let j = choose|j: int| 0 <= j < b.len() && (#[trigger] b[j]).0 == x;
        if j < i {
            assert(a[j] == b[j]);
            lemma_distinct(a, j, i);
        }
        let y = b[i].0;
        assert(names.count(y) > 0) by {
            assert(b[i].1 == names.count(y));
        }
        if j > i {
            assert(precedes(y, x));
            let p = choose|p: int| 0 <= p < a.len() && (#[trigger] a[p]).0 == y;
            lemma_precedes_irreflexive(x);
            if p < i {
                assert(a[p] == b[p]);
                lemma_distinct(b, p, i);
            } else if p > i {
                assert(precedes(a[i].0, a[p].0));
                lemma_precedes_transitive(x, y, x);
            }
        }
        assert(b[i].0 == x);
        assert(a[i].1 == names.count(x));
        assert(b[i].1 == names.count(x));
    }
}

/// There is only one tally of the same names.
pub proof fn lemma_tally_unique(
    a: Seq<(Seq<char>, nat)>,
    b: Seq<(Seq<char>, nat)>,
    names: vstd::multiset::Multiset<Seq<char>>,
)
    requires
        is_tally(a, names),
        is_tally(b, names),
    ensures
        a == b,
{
    lemma_tallies_agree(a, b, names, a.len() as int);
    lemma_tallies_agree(b, a, names, b.len() as int);
    assert(a =~= b);
}

proof fn lemma_counted_names_permute(a: Seq<Seq<char>>, b: Seq<Seq<char>>)
    requires
        a.to_multiset() == b.to_multiset(),
    ensures
        counted_names(a).to_multiset() == counted_names(b).to_multiset(),
    decreases a.len(),
{
    a.to_multiset_ensures();
    b.to_multiset_ensures();
    assert(a.len() == b.len());
    if a.len() == 0 {
        assert(a =~= b);
    } else {
        let x = a.last();
        let front = a.drop_last();
        vstd::seq_lib::to_multiset_contains(a, x);
        assert(a.contains(x)) by {
            assert(a[a.len() - 1] == x);
        }
        vstd::seq_lib::to_multiset_contains(b, x);
        assert(b.contains(x));
        let i = choose|i: int| 0 <= i < b.len() && b[i] == x;
        let rest = b.remove(i);
        vstd::seq_lib::to_multiset_remove(b, i);
        vstd::seq_lib::to_multiset_build(front, x);
        assert(front.push(x) =~= a);
        assert(front.to_multiset() =~= a.to_multiset().remove(x));
        lemma_counted_names_permute(front, rest);
        let n = counted_name(x);
        assert(counted_names(a) =~= counted_names(front).push(n));
        vstd::seq_lib::to_multiset_build(counted_names(front), n);
        assert(counted_names(b) =~= counted_names(rest).insert(i, n));
        vstd::seq_lib::to_multiset_insert(counted_names(rest), i, n);
    }
}

/// The digest does not depend on the order in which the wakeups arrived.
pub proof fn law_digest_is_order_invariant(a: Seq<Seq<char>>, b: Seq<Seq<char>>, commands: nat)
    requires
        a.to_multiset() == b.to_multiset(),
    ensures
        digest_form(a, commands) == digest_form(b, commands),
{
    a.to_multiset_ensures();
    b.to_multiset_ensures();
    lemma_counted_names_permute(a, b);
    law_tally_counts(counted_names(a));
    law_tally_counts(counted_names(b));
    lemma_tally_unique(
        tally(counted_names(a)),
        tally(counted_names(b)),
        counted_names(a).to_multiset(),
    );
}

/// How a run ends.
pub enum Conclusion {
    /// Invariants were breached: the closing line.
    Breached(String),
    /// No invariant was breached: the outcome to report, and the closing line.
    Clean(String, String),
}

/// Ends a scheduler run.
pub fn conclude(violations: u64, digest: &str) -> (r: Conclusion)
    ensures
        match r {
            Conclusion::Breached(line) => violations > 0 && line@ == "EXO_DST_VIOLATIONS count="@
                + text::decimal(violations as nat),
            Conclusion::Clean(outcome, line) => violations == 0 && outcome@ == digest@ && line@
                == "EXO_DST_OK "@ + digest@,
        },
{
    if violations > 0 {
        let mut line = "EXO_DST_VIOLATIONS count=".to_owned();
        line.append(decimal_text(violations).as_str());
        Conclusion::Breached(line)
    } else {
        let mut line = "EXO_DST_OK ".to_owned();
        line.append(digest);
        Conclusion::Clean(digest.to_owned(), line)
    }
}

/// What a prompt names: without two backticks nothing; otherwise what stands
/// between the first and the second, and nothing but that.
pub proof fn law_names_stand_between_backticks(prompt: Seq<char>)
    ensures
        task_name(prompt) is None <==> prompt.filter(|c: char| c == '`').len() < 2,
        task_name(prompt) matches Some(name) ==> {
            &&& !name.contains('`')
            &&& exists|before: Seq<char>, after: Seq<char>|
                prompt == #[trigger] (before + seq!['`'] + name + seq!['`'] + after)
                    && !before.contains('`')
        },
{
    prompt.index_of_first_ensures('`');
    match prompt.index_of_first('`') {
        None => {
            lemma_no_backtick(prompt);
        },
        Some(i) => {
            let before = prompt.take(i);
            let rest = prompt.skip(i + 1);
            rest.index_of_first_ensures('`');
            assert(prompt =~= before + seq!['`'] + rest);
            assert(!before.contains('`'));
            lemma_no_backtick(before);
            Seq::filter_distributes_over_add(before + seq!['`'], rest, |c: char| c == '`');
            Seq::filter_distributes_over_add(before, seq!['`'], |c: char| c == '`');
            lemma_one_backtick();
            match rest.index_of_first('`') {
                None => {
                    lemma_no_backtick(rest);
                },
                Some(j) => {
                    let name = rest.take(j);
                    let after = rest.skip(j + 1);
                    assert(rest =~= name + seq!['`'] + after);
                    assert(prompt =~= before + seq!['`'] + name + seq!['`'] + after);
                    assert(!name.contains('`'));
                    Seq::filter_distributes_over_add(name + seq!['`'], after, |c: char| c == '`');
                    Seq::filter_distributes_over_add(name, seq!['`'], |c: char| c == '`');
                },
            }
        },
    }
}

proof fn lemma_one_backtick()
    ensures
        seq!['`'].filter(|c: char| c == '`').len() == 1,
{
    reveal_with_fuel(Seq::filter, 2);
}

proof fn lemma_no_backtick(s: Seq<char>)
    ensures
        s.filter(|c: char| c == '`').len() == 0 <==> !s.contains('`'),
    decreases s.len(),
{
    reveal(Seq::filter);
    if s.len() > 0 {
        let front = s.drop_last();
        lemma_no_backtick(front);
        if front.contains('`') {
            let i = choose|i: int| 0 <= i < front.len() && front[i] == '`';
            assert(s[i] == '`');
        }
        if s.last() == '`' {
            assert(s[s.len() - 1] == '`');
        } else if s.contains('`') {
            let i = choose|i: int| 0 <= i < s.len() && s[i] == '`';
            assert(front[i] == '`');
        }
    }
}

/// A wakeup counts under the task it names, and under a question mark if it names
/// none; every wakeup counts, in turn.
pub proof fn law_every_wakeup_counts(prompts: Seq<Seq<char>>)
    ensures
        counted_names(prompts).len() == prompts.len(),
        forall|i: int|
            0 <= i < prompts.len() ==> #[trigger] counted_names(prompts)[i] == (match task_name(
                prompts[i],
            ) {
                Some(name) => name,
                None => "?"@,
            }),
{
}

/// Dictionary order: one text comes before another if it is the beginning of a
/// longer one, or has the smaller character where the two first differ.
pub proof fn law_dictionary_order(a: Seq<char>, b: Seq<char>)
    ensures
        precedes(a, b) <==> {
            ||| a.len() < b.len() && b.take(a.len() as int) == a
            ||| exists|k: int|
                0 <= k < a.len() && k < b.len() && a.take(k) == b.take(k) && #[trigger] a[k] < b[k]
        },
    decreases b.len(),
{
    if b.len() > 0 {
        if a.len() == 0 {
            assert(b.take(0) =~= a);
        } else {
            let x = a.skip(1);
            let y = b.skip(1);
            law_dictionary_order(x, y);
            assert(a =~= seq![a[0]] + x);
            assert(b =~= seq![b[0]] + y);
            if a[0] < b[0] {
                assert(a.take(0) =~= b.take(0));
            }
            if precedes(a, b) && a[0] == b[0] {
                if x.len() < y.len() && y.take(x.len() as int) == x {
                    assert(b.take(a.len() as int) =~= seq![b[0]] + y.take(x.len() as int));
                } else {
                    let k = choose|k: int|
                        0 <= k < x.len() && k < y.len() && x.take(k) == y.take(k) && #[trigger] x[k]
                            < y[k];
                    assert(a.take(k + 1) =~= seq![a[0]] + x.take(k));
                    assert(b.take(k + 1) =~= seq![b[0]] + y.take(k));
                    assert(a[k + 1] < b[k + 1]);
                }
            }
            if a.len() < b.len() && b.take(a.len() as int) == a {
                assert(b.take(a.len() as int)[0] == a[0]);
                assert(y.take(x.len() as int) =~= b.take(a.len() as int).skip(1));
            }
            if exists|k: int|
                0 <= k < a.len() && k < b.len() && a.take(k) == b.take(k) && #[trigger] a[k] < b[k] {
                let k = choose|k: int|
                    0 <= k < a.len() && k < b.len() && a.take(k) == b.take(k) && #[trigger] a[k]
                        < b[k];
                if k > 0 {
                    assert(a.take(k)[0] == b.take(k)[0]);
                    assert(x.take(k - 1) =~= a.take(k).skip(1));
                    assert(y.take(k - 1) =~= b.take(k).skip(1));
                    assert(x[k - 1] < y[k - 1]);
                }
            }
        }
    }
}

/// What the entries of a tally count together.
pub open spec fn tally_total(list: Seq<(Seq<char>, nat)>) -> nat
    decreases list.len(),
{
    if list.len() == 0 {
        0
    } else {
        tally_total(list.drop_last()) + list.last().1
    }
}

proof fn lemma_total_insert(list: Seq<(Seq<char>, nat)>, i: int, e: (Seq<char>, nat))
    requires
        0 <= i <= list.len(),
    ensures
        tally_total(list.insert(i, e)) == tally_total(list) + e.1,
    decreases list.len(),
{
    let out = list.insert(i, e);
    if i == list.len() {
        assert(out.drop_last() =~= list);
    } else {
        lemma_total_insert(list.drop_last(), i, e);
        assert(out.drop_last() =~= list.drop_last().insert(i, e));
    }
}

proof fn lemma_total_update(list: Seq<(Seq<char>, nat)>, i: int, e: (Seq<char>, nat))
    requires
        0 <= i < list.len(),
    ensures
        tally_total(list.update(i, e)) + list[i].1 == tally_total(list) + e.1,
    decreases list.len(),
{
    let out = list.update(i, e);
    if i == list.len() - 1 {
        assert(out.drop_last() =~= list.drop_last());
    } else {
        lemma_total_update(list.drop_last(), i, e);
        assert(out.drop_last() =~= list.drop_last().update(i, e));
    }
}

/// The entries of a tally count together as many names as there are.
pub proof fn law_tally_adds_up(names: Seq<Seq<char>>)
    ensures
        tally_total(tally(names)) == names.len(),
    decreases names.len(),
{
    if names.len() > 0 {
        let front = tally(names.drop_last());
        let name = names.last();
        law_tally_adds_up(names.drop_last());
        lemma_rank_bounds(front, name);
        let i = rank(front, name);
        if i < front.len() && front[i].0 == name {
            lemma_total_update(front, i, (name, front[i].1 + 1));
        } else {
            lemma_total_insert(front, i, (name, 1));
        }
    }
}

/// The digest gives the number of wakeups, the number of commands, and for each
/// name that some wakeup counts under, in dictionary order, how many wakeups do:
/// any list of that kind spells it out.
pub proof fn law_digest_spells_out_the_tally(
    prompts: Seq<Seq<char>>,
    commands: nat,
    list: Seq<(Seq<char>, nat)>,
)
    requires
        forall|i: int, j: int|
            0 <= i < j < list.len() ==> precedes((#[trigger] list[i]).0, (#[trigger] list[j]).0),
        forall|i: int|
            0 <= i < list.len() ==> (#[trigger] list[i]).1 > 0 && list[i].1 == counted_names(
                prompts,
            ).to_multiset().count(list[i].0),
        forall|name: Seq<char>|
            #[trigger] counted_names(prompts).contains(name) ==> exists|i: int|
                0 <= i < list.len() && (#[trigger] list[i]).0 == name,
    ensures
        digest_form(prompts, commands) == "wakeups="@ + text::decimal(prompts.len()) + " commands="@
            + text::decimal(commands) + " per_task={"@ + text::joined(
            list.map_values(
                |e: (Seq<char>, nat)| text::quoted(e.0) + ": "@ + text::decimal(e.1),
            ),
            ", "@,
        ) + "}"@,
{
    let names = counted_names(prompts);
    law_tally_counts(names);
    assert forall|name: Seq<char>| #[trigger] names.to_multiset().count(name) > 0 implies exists|
        i: int,
    | 0 <= i < list.len() && (#[trigger] list[i]).0 == name by {
        vstd::seq_lib::to_multiset_contains(names, name);
        assert(names.contains(name));
    }
    lemma_tally_unique(tally(names), list, names.to_multiset());
}

} // verus!
