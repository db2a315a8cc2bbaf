//! Text primitives: decimal numerals, joining, searching and quoting.

use vstd::prelude::*;

verus! {

/// The character of a decimal digit.
pub open spec fn digit_char(d: nat) -> char {
    ('0' as nat + d) as char
}

/// The decimal numeral of `n`, without leading zeros.
pub open spec fn decimal(n: nat) -> Seq<char>
    decreases n,
{
    if n < 10 {
        seq![digit_char(n)]
    } else {
        decimal(n / 10).push(digit_char(n % 10))
    }
}

/// Whether `c` is one of the ten ASCII digits.
pub open spec fn is_digit(c: char) -> bool {
    '0' <= c <= '9'
}

pub open spec fn all_digits(s: Seq<char>) -> bool {
    forall|i: int| 0 <= i < s.len() ==> is_digit(#[trigger] s[i])
}

/// The number that a string of decimal digits denotes.
pub open spec fn digits_value(s: Seq<char>) -> nat
    decreases s.len(),
{
    if s.len() == 0 {
        0
    } else {
        digits_value(s.drop_last()) * 10 + (s.last() as nat - '0' as nat) as nat
    }
}

/// What an unsigned 64-bit numeral denotes: an optional plus sign, then one or
/// more digits whose value fits.
pub open spec fn unsigned_value(s: Seq<char>) -> Option<u64> {
    let body = if s.len() > 0 && s[0] == '+' {
        s.skip(1)
    } else {
        s
    };
    if body.len() > 0 && all_digits(body) && digits_value(body) <= u64::MAX {
        Some(digits_value(body) as u64)
    } else {
        None
    }
}

/// The texts of a list of strings.
pub open spec fn texts(s: Seq<String>) -> Seq<Seq<char>> {
    s.map_values(|t: String| t@)
}

/// How often `t` occurs in `s`.
pub open spec fn occurrences(s: Seq<Seq<char>>, t: Seq<char>) -> nat {
    s.to_multiset().count(t)
}

/// Parts put together with a separator between each two.
pub open spec fn joined(parts: Seq<Seq<char>>, separator: Seq<char>) -> Seq<char>
    decreases parts.len(),
{
    if parts.len() == 0 {
        Seq::empty()
    } else if parts.len() == 1 {
        parts[0]
    } else {
        joined(parts.drop_last(), separator) + separator + parts.last()
    }
}

/// The `Debug` rendering of a string: the string in double quotes, with the
/// characters that `Debug` escapes written as escapes.
pub uninterp spec fn quoted(s: Seq<char>) -> Seq<char>;

/// Whether a text is made of ASCII letters, digits, hyphens and question marks
/// alone, none of which a `Debug` rendering escapes.
pub open spec fn is_plain(s: Seq<char>) -> bool {
    forall|i: int|
        0 <= i < s.len() ==> {
            let c = #[trigger] s[i];
            ||| 'a' <= c <= 'z'
            ||| 'A' <= c <= 'Z'
            ||| '0' <= c <= '9'
            ||| c == '-'
            ||| c == '?'
        }
}

/// The characters of a string slice.
pub fn chars_of(s: &str) -> (r: Vec<char>)
    ensures
        r@ == s@,
{
    let mut out: Vec<char> = Vec::new();
    for c in it: s.chars()
        invariant
            it.seq() == s@,
            out@ == s@.take(it.index() as int),
    {
        out.push(c);
        assert(out@ =~= s@.take(it.index() + 1));
    }
    assert(s@.take(s@.len() as int) =~= s@);
    out
}

/// Whether two string slices hold the same characters.
pub fn same_text(a: &str, b: &str) -> (r: bool)
    ensures
        r == (a@ == b@),
{
    a.to_owned() == b.to_owned()
}

/// Calls the `Debug` formatting of `str` from the standard library. The result
/// is a function of the characters alone; of plain text it is that text between
/// double quotes. What becomes of other characters is left to the name.
#[verifier::external_body]
pub(crate) fn quoted_text(s: &str) -> (r: String)
    ensures
        r@ == quoted(s@),
        is_plain(s@) ==> r@ == seq!['"'] + s@ + seq!['"'],
{
    format!("{:?}", s)
}

/// How often `t` occurs in `list`.
pub fn count_text(list: &Vec<String>, t: &str) -> (r: usize)
    ensures
        r == occurrences(texts(list@), t@),
        r <= list@.len(),
{
    let ghost all = texts(list@);
    let mut n: usize = 0;
    let mut i: usize = 0;
    proof {
        all.take(0).to_multiset_ensures();
    }
    while i < list.len()
        invariant
            all == texts(list@),
            i <= list@.len(),
            n == occurrences(all.take(i as int), t@),
            n <= i,
        decreases list@.len() - i,
    {
        proof {
            assert(all.take(i + 1) =~= all.take(i as int).push(all[i as int]));
            vstd::seq_lib::to_multiset_build(all.take(i as int), all[i as int]);
        }
        if same_text(list[i].as_str(), t) {
            n = n + 1;
        }
        i = i + 1;
    }
    assert(all.take(list@.len() as int) =~= all);
    n
}

/// Whether `t` occurs in `list`.
pub fn contains_text(list: &Vec<String>, t: &str) -> (r: bool)
    ensures
        r == texts(list@).contains(t@),
{
    let mut i: usize = 0;
    while i < list.len()
        invariant
            i <= list@.len(),
            forall|j: int| 0 <= j < i ==> #[trigger] texts(list@)[j] != t@,
        decreases list@.len() - i,
    {
        if same_text(list[i].as_str(), t) {
            assert(texts(list@)[i as int] == t@);
            return true;
        }
        i = i + 1;
    }
    false
}

/// Puts the parts together with a separator between each two.
pub fn join_texts(parts: &Vec<String>, separator: &str) -> (r: String)
    ensures
        r@ == joined(texts(parts@), separator@),
{
    let ghost all = texts(parts@);
    let mut r = String::new();
    let mut i: usize = 0;
    while i < parts.len()
        invariant
            all == texts(parts@),
            i <= parts@.len(),
            r@ == joined(all.take(i as int), separator@),
        decreases parts@.len() - i,
    {
        if i > 0 {
            r.append(separator);
        }
        r.append(parts[i].as_str());
        proof {
            assert(all.take(i + 1).drop_last() =~= all.take(i as int));
            assert(all.take(i + 1).last() == all[i as int]);
            if i == 0 {
                assert(r@ =~= joined(all.take(1), separator@));
            }
        }
        i = i + 1;
    }
    assert(all.take(parts@.len() as int) =~= all);
    r
}

/// The numeral of one digit.
fn digit_text(d: u64) -> (r: &'static str)
    requires
        d < 10,
    ensures
        r@ == seq![digit_char(d as nat)],
{
    proof {
        reveal_strlit("0");
        reveal_strlit("1");
        reveal_strlit("2");
        reveal_strlit("3");
        reveal_strlit("4");
        reveal_strlit("5");
        reveal_strlit("6");
        reveal_strlit("7");
        reveal_strlit("8");
        reveal_strlit("9");
    }
    let r: &'static str = match d {
        0 => "0",
        1 => "1",
        2 => "2",
        3 => "3",
        4 => "4",
        5 => "5",
        6 => "6",
        7 => "7",
        8 => "8",
        _ => "9",
    };
    assert(r@ =~= seq![digit_char(d as nat)]);
    r
}

/// The decimal numeral of `n`.
pub fn decimal_text(n: u64) -> (r: String)
    ensures
        r@ == decimal(n as nat),
    decreases n,
{
    if n < 10 {
        digit_text(n).to_owned()
    } else {
        let mut r = decimal_text(n / 10);
        r.append(digit_text(n % 10));
        assert(r@ =~= decimal(n as nat));
        r
    }
}

/// More digits never make a smaller number.
proof fn lemma_digits_value_grows(s: Seq<char>, k: int)
    requires
        0 <= k <= s.len(),
        all_digits(s),
    ensures
        digits_value(s.take(k)) <= digits_value(s),
    decreases s.len() - k,
{
    if k == s.len() {
        assert(s.take(k) =~= s);
    } else {
        lemma_digits_value_grows(s, k + 1);
        assert(s.take(k + 1).drop_last() =~= s.take(k));
        assert(is_digit(s[k]));
        assert(s.take(k + 1).last() == s[k]);
    }
}

/// Reads an unsigned numeral off `chars[from..to]`.
pub fn parse_unsigned(chars: &Vec<char>, from: usize, to: usize) -> (r: Option<u64>)
    requires
        from <= to <= chars@.len(),
    ensures
        r == unsigned_value(chars@.subrange(from as int, to as int)),
{
    let ghost text = chars@.subrange(from as int, to as int);
    let start: usize = if from < to && chars[from] == '+' {
        from + 1
    } else {
        from
    };
    let ghost body = chars@.subrange(start as int, to as int);
    proof {
        if start == from + 1 {
            assert(text.skip(1) =~= body);
        }
    }
    if start == to {
        return None;
    }
    let mut value: u64 = 0;
    let mut i: usize = start;
    assert(body.take(0) =~= Seq::<char>::empty());
    while i < to
        invariant
            from <= start <= i <= to <= chars@.len(),
            text == chars@.subrange(from as int, to as int),
            body == chars@.subrange(start as int, to as int),
            body.len() > 0,
            unsigned_value(text) == (if all_digits(body) && digits_value(body) <= u64::MAX {
                Some(digits_value(body) as u64)
            } else {
                None
            }),
            all_digits(body.take(i - start)),
            value == digits_value(body.take(i - start)),
        decreases to - i,
    {
        let c = chars[i];
        let ghost k = i - start;
        assert(body[k] == c);
        if c < '0' || '9' < c {
            assert(!is_digit(body[k]));
            return None;
        }
        let d: u64 = (c as u32 - '0' as u32) as u64;
        proof {
            assert(body.take(k + 1).drop_last() =~= body.take(k));
            assert(body.take(k + 1).last() == c);
            assert(digits_value(body.take(k + 1)) == value * 10 + d);
            assert forall|j: int| 0 <= j < k + 1 implies is_digit(#[trigger] body.take(k + 1)[j]) by {
                if j < k {
                    assert(is_digit(body.take(k)[j]));
                }
            }
            if all_digits(body) {
                lemma_digits_value_grows(body, k + 1);
            }
        }
        let next: u64 = match value.checked_mul(10) {
            Some(tens) => match tens.checked_add(d) {
                Some(sum) => sum,
                None => {
                    return None;
                },
            },
            None => {
                return None;
            },
        };
        value = next;
        i = i + 1;
    }
    assert(body.take(to - start) =~= body);
    Some(value)
}

/// A numeral denotes the number it was written for, and is nothing but digits.
pub proof fn lemma_decimal_denotes(n: nat)
    ensures
        decimal(n).len() > 0,
        all_digits(decimal(n)),
        digits_value(decimal(n)) == n,
    decreases n,
{
    if n < 10 {
        reveal_with_fuel(digits_value, 2);
        assert(decimal(n).drop_last() =~= Seq::<char>::empty());
    } else {
        lemma_decimal_denotes(n / 10);
        assert(decimal(n).drop_last() =~= decimal(n / 10));
        assert forall|i: int| 0 <= i < decimal(n).len() implies is_digit(#[trigger] decimal(n)[i]) by {
            if i < decimal(n / 10).len() {
                assert(is_digit(decimal(n / 10)[i]));
            }
        }
    }
}

/// Reading back the numeral of any 64-bit number gives that number.
pub proof fn lemma_unsigned_round_trip(n: u64)
    ensures
        unsigned_value(decimal(n as nat)) == Some(n),
{
    lemma_decimal_denotes(n as nat);
    assert(is_digit(decimal(n as nat)[0]));
}

/// Different numbers have different numerals.
pub proof fn lemma_decimal_injective(a: nat, b: nat)
    requires
        decimal(a) == decimal(b),
    ensures
        a == b,
{
    lemma_decimal_denotes(a);
    lemma_decimal_denotes(b);
}

/// A numeral is read digit by digit: putting a digit behind a number writes ten
/// times that number plus the digit, and a single digit writes itself.
pub proof fn law_numerals_grow_by_digits(n: nat, d: nat)
    requires
        d < 10,
    ensures
        decimal(d).len() == 1,
        decimal(d)[0] as nat == '0' as nat + d,
        n > 0 ==> decimal(10 * n + d) == decimal(n) + decimal(d),
{
    if n > 0 {
        let m = 10 * n + d;
        assert(m / 10 == n && m % 10 == d);
        assert(decimal(m) =~= decimal(n) + decimal(d));
    }
}

/// A numeral is made of digits, starts with a zero only if it is zero, and has
/// as many digits as the number needs.
pub proof fn law_numerals_are_plain(n: nat)
    ensures
        decimal(n).len() > 0,
        forall|i: int| 0 <= i < decimal(n).len() ==> '0' <= #[trigger] decimal(n)[i] <= '9',
        decimal(n)[0] == '0' <==> n == 0,
        decimal(n).len() == 1 <==> n < 10,
    decreases n,
{
    lemma_decimal_denotes(n);
    assert forall|i: int| 0 <= i < decimal(n).len() implies '0' <= #[trigger] decimal(n)[i] <= '9' by {
        assert(is_digit(decimal(n)[i]));
    }
    if n >= 10 {
        law_numerals_are_plain(n / 10);
        assert(decimal(n)[0] == decimal(n / 10)[0]);
    }
}

/// Reading a number: a text of digits alone denotes the number that its digits
/// give, a plus sign before it changes nothing, and any other text denotes none.
pub proof fn law_unsigned_texts(s: Seq<char>, d: char)
    ensures
        unsigned_value(Seq::empty()) is None,
        '0' <= d <= '9' ==> unsigned_value(seq![d]) == Some((d as u64 - '0' as u64) as u64),
        (unsigned_value(s) matches Some(n) && '0' <= d <= '9' && n * 10 + (d as u64 - '0' as u64)
            <= u64::MAX) ==> unsigned_value(s.push(d)) == Some(
            (unsigned_value(s)->0 * 10 + (d as u64 - '0' as u64)) as u64,
        ),
        (unsigned_value(s) matches Some(n) && '0' <= d <= '9' && n * 10 + (d as u64 - '0' as u64)
            > u64::MAX) ==> unsigned_value(s.push(d)) is None,
        s.len() > 0 && !('0' <= d <= '9') ==> unsigned_value(s.push(d)) is None,
        !('0' <= d <= '9') ==> unsigned_value(seq![d]) is None,
        s.len() > 0 && s != seq!['+'] && unsigned_value(s) is None ==> unsigned_value(s.push(d)) is None,
        s.len() > 0 && s[0] != '+' ==> unsigned_value(seq!['+'] + s) == unsigned_value(s),
        s.len() > 0 && s[0] == '+' ==> unsigned_value(seq!['+'] + s) is None,
{
    reveal_with_fuel(digits_value, 2);
    assert(seq![d].drop_last() =~= Seq::<char>::empty());
    let sign = s.len() > 0 && s[0] == '+';
    let body = if sign {
        s.skip(1)
    } else {
        s
    };
    let t = s.push(d);
    if s.len() > 0 {
        let grown = body.push(d);
        assert(t[0] == s[0]);
        assert((if sign {
            t.skip(1)
        } else {
            t
        }) =~= grown);
        assert(grown.drop_last() =~= body);
        assert(grown[grown.len() - 1] == d);
        if all_digits(body) && '0' <= d <= '9' {
            assert forall|i: int| 0 <= i < grown.len() implies is_digit(#[trigger] grown[i]) by {
                if i < body.len() {
                    assert(is_digit(body[i]));
                }
            }
        }
        if !('0' <= d <= '9') {
            assert(!is_digit(grown[grown.len() - 1]));
        }
        if s != seq!['+'] && unsigned_value(s) is None {
            if body.len() == 0 {
                assert(s =~= seq!['+']);
            }
            if !all_digits(body) {
                let i = choose|i: int| 0 <= i < body.len() && !is_digit(#[trigger] body[i]);
                assert(!is_digit(grown[i]));
            }
        }
        let signed = seq!['+'] + s;
        assert(signed.skip(1) =~= s);
        if sign {
            assert(!is_digit(s[0]));
        }
    }
    assert(seq![d][0] == d);
    if '0' <= d <= '9' {
        assert(all_digits(seq![d]));
    } else if d != '+' {
        assert(!is_digit(seq![d][0]));
    }
}

/// The list of texts is the list of strings, text by text.
pub proof fn law_texts_are_the_strings(s: Seq<String>)
    ensures
        texts(s).len() == s.len(),
        forall|i: int| 0 <= i < s.len() ==> #[trigger] texts(s)[i] == s[i]@,
{
}

/// An occurrence is a place: a text occurs as often as there are strings in the
/// list that read so.
pub proof fn law_occurrences_are_places(list: Seq<String>, t: Seq<char>)
    ensures
        occurrences(texts(list), t) == list.filter(|w: String| w@ == t).len(),
    decreases list.len(),
{
    reveal(Seq::filter);
    let all = texts(list);
    all.to_multiset_ensures();
    if list.len() > 0 {
        let front = list.drop_last();
        law_occurrences_are_places(front, t);
        assert(all =~= texts(front).push(list.last()@));
        vstd::seq_lib::to_multiset_build(texts(front), list.last()@);
    } else {
        assert(!all.contains(t));
    }
}

/// Joining lists one behind the other puts the separator between them, and
/// joining a single part gives that part.
pub proof fn law_joining_concatenates(
    a: Seq<Seq<char>>,
    b: Seq<Seq<char>>,
    part: Seq<char>,
    separator: Seq<char>,
)
    ensures
        joined(Seq::empty(), separator) == Seq::<char>::empty(),
        joined(seq![part], separator) == part,
        a.len() > 0 && b.len() > 0 ==> joined(a + b, separator) == joined(a, separator) + separator
            + joined(b, separator),
    decreases b.len(),
{
    if a.len() > 0 && b.len() > 0 {
        let front = b.drop_last();
        assert((a + b).drop_last() =~= a + front);
        assert((a + b).last() == b.last());
        if front.len() > 0 {
            law_joining_concatenates(a, front, part, separator);
            assert(joined(a + b, separator) =~= joined(a, separator) + separator + joined(
                b,
                separator,
            ));
        } else {
            assert(a + front =~= a);
            assert(b =~= seq![b.last()]);
        }
    }
}

} // verus!
