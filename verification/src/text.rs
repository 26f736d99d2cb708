//! Text as sequences of characters: comparison, splitting, decimal numbers.

use vstd::prelude::*;

verus! {

broadcast use vstd::string::group_string_axioms;

/// The contents of a list of strings.
pub open spec fn texts(list: Seq<String>) -> Seq<Seq<char>> {
    list.map_values(|s: String| s@)
}

/// The contents of an optional string.
pub open spec fn text_in(s: Option<String>) -> Option<Seq<char>> {
    match s {
        Some(s) => Some(s@),
        None => None,
    }
}

/// The contents of an optional string, or `default`.
pub open spec fn text_or(s: Option<String>, default: Seq<char>) -> Seq<char> {
    match s {
        Some(s) => s@,
        None => default,
    }
}

/// A copy of the string, or of `default` where there is none.
pub fn string_or(s: &Option<String>, default: &str) -> (r: String)
    ensures
        r@ == text_or(*s, default@),
{
    match s {
        Some(s) => s.clone(),
        None => default.to_owned(),
    }
}

/// The characters of `s`.
pub fn chars_of(s: &str) -> (chars: Vec<char>)
    ensures
        chars@ == s@,
{
    let mut chars: Vec<char> = Vec::new();
    for c in it: s.chars()
        invariant
            chars@ == it.seq().take(it.index() as int),
            it.seq() == s@,
    {
        proof {
            assert(it.seq().take(it.index() + 1) =~= it.seq().take(it.index() as int).push(c));
        }
        chars.push(c);
    }
    proof {
        assert(chars@ =~= s@);
    }
    chars
}

/// Whether two strings hold the same characters.
pub fn same_text(a: &str, b: &str) -> (same: bool)
    ensures
        same == (a@ == b@),
{
    a.to_owned() == b.to_owned()
}

/// Whether some string of `list` holds exactly the characters of `s`.
pub fn has_text(list: &Vec<String>, s: &str) -> (found: bool)
    ensures
        found == texts(list@).contains(s@),
{
    let mut i: usize = 0;
    while i < list.len()
        invariant
            i <= list@.len(),
            forall|k: int| 0 <= k < i ==> texts(list@)[k] != s@,
        decreases list@.len() - i,
    {
        if same_text(list[i].as_str(), s) {
            assert(texts(list@)[i as int] == s@);
            return true;
        }
        i += 1;
    }
    false
}

// ---------------------------------------------------------------------------
// Order
// ---------------------------------------------------------------------------

/// Lexicographic order by code point: a proper prefix comes first, otherwise the
/// first differing character decides.
pub open spec fn text_lt(a: Seq<char>, b: Seq<char>) -> bool
    decreases a.len(),
{
    if b.len() == 0 {
        false
    } else if a.len() == 0 {
        true
    } else if a[0] == b[0] {
        text_lt(a.skip(1), b.skip(1))
    } else {
        (a[0] as int) < (b[0] as int)
    }
}

/// The code point of `c`.
fn code_point(c: char) -> (n: u32)
    ensures
        n as int == c as int,
{
    c as u32
}

/// Whether `a` comes strictly before `b`.
pub fn text_before(a: &str, b: &str) -> (before: bool)
    ensures
        before == text_lt(a@, b@),
{
    let x: Vec<char> = chars_of(a);
    let y: Vec<char> = chars_of(b);
    let mut i: usize = 0;
    proof {
        assert(a@.skip(0) =~= a@);
        assert(b@.skip(0) =~= b@);
    }
    while i < x.len() && i < y.len() && x[i] == y[i]
        invariant
            x@ == a@,
            y@ == b@,
            i <= x@.len(),
            i <= y@.len(),
            text_lt(a@, b@) == text_lt(a@.skip(i as int), b@.skip(i as int)),
        decreases x@.len() - i,
    {
        proof {
            assert(a@.skip(i as int).skip(1) =~= a@.skip(i + 1));
            assert(b@.skip(i as int).skip(1) =~= b@.skip(i + 1));
        }
        i += 1;
    }
    if i >= y.len() {
        false
    } else if i >= x.len() {
        true
    } else {
        code_point(x[i]) < code_point(y[i])
    }
}

/// No text comes before itself.
pub proof fn text_lt_irreflexive(a: Seq<char>)
    ensures
        !text_lt(a, a),
    decreases a.len(),
{
    if a.len() > 0 {
        text_lt_irreflexive(a.skip(1));
    }
}

/// Of two different texts one comes before the other.
pub proof fn text_lt_total(a: Seq<char>, b: Seq<char>)
    ensures
        a == b || text_lt(a, b) || text_lt(b, a),
    decreases a.len(),
{
    if a.len() > 0 && b.len() > 0 && a[0] == b[0] {
        text_lt_total(a.skip(1), b.skip(1));
        if a.skip(1) == b.skip(1) {
            assert(a =~= seq![a[0]] + a.skip(1));
            assert(b =~= seq![b[0]] + b.skip(1));
            assert(a == b);
        }
    } else if a.len() == 0 && b.len() == 0 {
        assert(a =~= b);
    }
}

/// The order is transitive.
pub proof fn text_lt_transitive(a: Seq<char>, b: Seq<char>, c: Seq<char>)
    requires
        text_lt(a, b),
        text_lt(b, c),
    ensures
        text_lt(a, c),
    decreases a.len(),
{
    if a.len() > 0 && b.len() > 0 && c.len() > 0 && a[0] == b[0] && b[0] == c[0] {
        text_lt_transitive(a.skip(1), b.skip(1), c.skip(1));
    }
}

// ---------------------------------------------------------------------------
// Splitting at a separator
// ---------------------------------------------------------------------------

/// The position of the first `sep` in `s`, or the length of `s` where there is none.
pub open spec fn first_at(s: Seq<char>, sep: char) -> int
    decreases s.len(),
{
    if s.len() == 0 {
        0
    } else if s[0] == sep {
        0
    } else {
        1 + first_at(s.skip(1), sep)
    }
}

/// `s` cut at its first `limit - 1` separators: every piece but the last is free of
/// `sep`, and the last piece holds whatever is left.
pub open spec fn pieces(s: Seq<char>, sep: char, limit: nat) -> Seq<Seq<char>>
    decreases limit,
{
    if limit <= 1 || first_at(s, sep) >= s.len() {
        seq![s]
    } else {
        seq![s.take(first_at(s, sep))] + pieces(
            s.skip(first_at(s, sep) + 1),
            sep,
            (limit - 1) as nat,
        )
    }
}

/// What [`first_at`] finds: no separator stands before it, and one stands there
/// unless it is the end.
pub proof fn first_at_finds(s: Seq<char>, sep: char)
    ensures
        0 <= first_at(s, sep) <= s.len(),
        first_at(s, sep) < s.len() ==> s[first_at(s, sep)] == sep,
        forall|k: int| 0 <= k < first_at(s, sep) ==> s[k] != sep,
    decreases s.len(),
{
    if s.len() > 0 && s[0] != sep {
        first_at_finds(s.skip(1), sep);
        assert forall|k: int| 0 <= k < first_at(s, sep) implies s[k] != sep by {
            if k > 0 {
                assert(s[k] == s.skip(1)[k - 1]);
            }
        }
    }
}

/// The position of a separator with none before it is the one [`first_at`] finds.
pub proof fn first_at_is(s: Seq<char>, sep: char, i: int)
    requires
        0 <= i <= s.len(),
        i < s.len() ==> s[i] == sep,
        forall|k: int| 0 <= k < i ==> s[k] != sep,
    ensures
        first_at(s, sep) == i,
{
    first_at_finds(s, sep);
    let f = first_at(s, sep);
    if f < i {
        assert(s[f] != sep);
    }
    if i < f {
        assert(s[i] != sep);
    }
}

/// A piece that holds no separator, followed by a separator, is the first piece.
pub proof fn pieces_head(head: Seq<char>, rest: Seq<char>, sep: char, limit: nat)
    requires
        !head.contains(sep),
        limit >= 2,
    ensures
        pieces(head + seq![sep] + rest, sep, limit) == seq![head] + pieces(
            rest,
            sep,
            (limit - 1) as nat,
        ),
{
    let s = head + seq![sep] + rest;
    assert forall|k: int| 0 <= k < head.len() implies s[k] != sep by {
        assert(head.contains(head[k]));
    }
    first_at_is(s, sep, head.len() as int);
    assert(s.take(head.len() as int) =~= head);
    assert(s.skip(head.len() as int + 1) =~= rest);
}

/// `s` cut into at most `limit` pieces at the separator `sep`.
pub fn split_pieces(s: &str, sep: char, limit: usize) -> (parts: Vec<String>)
    ensures
        texts(parts@) == pieces(s@, sep, limit as nat),
{
    let chars: Vec<char> = chars_of(s);
    let mut parts: Vec<String> = Vec::new();
    let mut start: usize = 0;
    let mut at: usize = 0;
    let mut left: usize = limit;
    proof {
        assert(s@.skip(0) =~= s@);
        assert(texts(parts@) + pieces(s@, sep, limit as nat) =~= pieces(s@, sep, limit as nat));
    }
    while left > 1 && at < chars.len()
        invariant
            chars@ == s@,
            start <= at <= chars@.len(),
            forall|k: int| start <= k < at ==> chars@[k] != sep,
            texts(parts@) + pieces(s@.skip(start as int), sep, left as nat) == pieces(
                s@,
                sep,
                limit as nat,
            ),
        decreases chars@.len() - at,
    {
        if chars[at] == sep {
            let ghost tail = s@.skip(start as int);
            let ghost before = parts@;
            parts.push(s.substring_char(start, at).to_owned());
            proof {
                assert forall|k: int| 0 <= k < at - start implies tail[k] != sep by {
                    assert(tail[k] == chars@[start + k]);
                }
                first_at_is(tail, sep, at - start);
                assert(tail.take(at - start) =~= s@.subrange(start as int, at as int));
                assert(tail.skip(at - start + 1) =~= s@.skip(at + 1));
                assert(texts(parts@) =~= texts(before).push(tail.take(at - start)));
                assert(texts(parts@) + pieces(s@.skip(at + 1), sep, (left - 1) as nat)
                    =~= texts(before) + pieces(tail, sep, left as nat));
            }
            start = at + 1;
            left = left - 1;
        }
        at = at + 1;
    }
    let ghost tail = s@.skip(start as int);
    let ghost before = parts@;
    parts.push(s.substring_char(start, chars.len()).to_owned());
    proof {
        if left > 1 {
            assert forall|k: int| 0 <= k < tail.len() implies tail[k] != sep by {
                assert(tail[k] == chars@[start + k]);
            }
            first_at_is(tail, sep, tail.len() as int);
        }
        assert(s@.subrange(start as int, chars@.len() as int) =~= tail);
        assert(texts(parts@) =~= texts(before) + pieces(tail, sep, left as nat));
    }
    parts
}

// ---------------------------------------------------------------------------
// Prefixes and suffixes
// ---------------------------------------------------------------------------

/// What follows `prefix` in `s`, where `s` starts with it.
pub open spec fn without_prefix(s: Seq<char>, prefix: Seq<char>) -> Option<Seq<char>> {
    if prefix.is_prefix_of(s) {
        Some(s.skip(prefix.len() as int))
    } else {
        None
    }
}

/// What follows `prefix` in `s`, where `s` starts with it.
pub fn strip_prefix(s: &str, prefix: &str) -> (rest: Option<String>)
    ensures
        text_in(rest) == without_prefix(s@, prefix@),
{
    let n: usize = prefix.unicode_len();
    let len: usize = s.unicode_len();
    if n > len {
        return None;
    }
    if same_text(s.substring_char(0, n), prefix) {
        let rest: String = s.substring_char(n, len).to_owned();
        proof {
            assert(rest@ =~= s@.skip(n as int));
            assert(prefix@ =~= s@.subrange(0, n as int));
        }
        Some(rest)
    } else {
        None
    }
}

/// `s` without the occurrences of `c` at its end.
pub open spec fn without_trailing(s: Seq<char>, c: char) -> Seq<char>
    decreases s.len(),
{
    if s.len() > 0 && s.last() == c {
        without_trailing(s.drop_last(), c)
    } else {
        s
    }
}

/// `s` without the occurrences of `c` at its end.
pub fn trim_end(s: &str, c: char) -> (r: String)
    ensures
        r@ == without_trailing(s@, c),
{
    let chars: Vec<char> = chars_of(s);
    let mut n: usize = chars.len();
    proof {
        assert(s@.take(n as int) =~= s@);
    }
    while n > 0 && chars[n - 1] == c
        invariant
            chars@ == s@,
            n <= chars@.len(),
            without_trailing(s@.take(n as int), c) == without_trailing(s@, c),
        decreases n,
    {
        proof {
            assert(s@.take(n as int).drop_last() =~= s@.take(n - 1));
        }
        n = n - 1;
    }
    let r: String = s.substring_char(0, n).to_owned();
    proof {
        assert(r@ =~= s@.take(n as int));
    }
    r
}

// ---------------------------------------------------------------------------
// Decimal numbers
// ---------------------------------------------------------------------------

/// The decimal digit for `d`.
pub open spec fn digit(d: nat) -> char {
    (48 + d) as char
}

/// `n` in decimal, without leading zeros.
pub open spec fn decimal_text(n: nat) -> Seq<char>
    decreases n,
{
    if n < 10 {
        seq![digit(n)]
    } else {
        decimal_text(n / 10).push(digit(n % 10))
    }
}

/// Whether `c` is one of the ten decimal digits.
pub open spec fn is_digit(c: char) -> bool {
    48 <= c as int <= 57
}

/// Whether every character of `s` is a decimal digit.
pub open spec fn all_digits(s: Seq<char>) -> bool {
    forall|i: int| 0 <= i < s.len() ==> is_digit(#[trigger] s[i])
}

/// The number that the digits `s` write.
pub open spec fn digits_value(s: Seq<char>) -> nat
    decreases s.len(),
{
    if s.len() == 0 {
        0
    } else {
        (10 * digits_value(s.drop_last()) + (s.last() as int - 48)) as nat
    }
}

/// A decimal number of at most `max`: digits, after at most one `+`.
pub open spec fn parsed_number(s: Seq<char>, max: nat) -> Option<nat> {
    let body = if s.len() > 0 && s[0] == '+' {
        s.skip(1)
    } else {
        s
    };
    if body.len() > 0 && all_digits(body) && digits_value(body) <= max {
        Some(digits_value(body))
    } else {
        None
    }
}

fn digit_text(d: u8) -> (s: &'static str)
    requires
        d < 10,
    ensures
        s@ == seq![digit(d as nat)],
{
    proof {
        reveal_strlit("0");
        reveal_strlit("1");
        reveal_strlit("2");
        reveal_strlit("3");
        reveal_strlit("4");
        reveal_strlit("5");
        reveal_strlit("6");
        reveal_strlit("7");
        reveal_strlit("8");
        reveal_strlit("9");
    }
    match d {
        0 => "0",
        1 => "1",
        2 => "2",
        3 => "3",
        4 => "4",
        5 => "5",
        6 => "6",
        7 => "7",
        8 => "8",
        _ => "9",
    }
}

/// `n` written in decimal.
pub fn decimal(n: u64) -> (s: String)
    ensures
        s@ == decimal_text(n as nat),
    decreases n,
{
    if n < 10 {
        digit_text(n as u8).to_owned()
    } else {
        let mut s: String = decimal(n / 10);
        s.append(digit_text((n % 10) as u8));
        proof {
            assert(s@ =~= decimal_text(n as nat));
        }
        s
    }
}

proof fn digits_value_grows(s: Seq<char>, n: int)
    requires
        all_digits(s),
        0 <= n <= s.len(),
    ensures
        digits_value(s.take(n)) <= digits_value(s),
    decreases s.len(),
{
    if n < s.len() {
        digits_value_grows(s.drop_last(), n);
        assert(s.drop_last().take(n) =~= s.take(n));
    } else {
        assert(s.take(n) =~= s);
    }
}

/// The number that `s` writes, where it is at most `max`.
pub fn parse_number(s: &str, max: u64) -> (n: Option<u64>)
    ensures
        match n {
            Some(v) => parsed_number(s@, max as nat) == Some(v as nat),
            None => parsed_number(s@, max as nat) is None,
        },
{
    let chars: Vec<char> = chars_of(s);
    let start: usize = if chars.len() > 0 && chars[0] == '+' {
        1
    } else {
        0
    };
    let ghost body = if s@.len() > 0 && s@[0] == '+' {
        s@.skip(1)
    } else {
        s@
    };
    proof {
        assert(body =~= s@.skip(start as int));
        assert(body.take(0) =~= Seq::<char>::empty());
    }
    if start >= chars.len() {
        return None;
    }
    let mut i: usize = start;
    let mut value: u64 = 0;
    while i < chars.len()
        invariant
            chars@ == s@,
            start <= i <= chars@.len(),
            body == s@.skip(start as int),
            all_digits(body.take(i - start)),
            value as nat == digits_value(body.take(i - start)),
            value <= max,
            body == (if s@.len() > 0 && s@[0] == '+' {
                s@.skip(1)
            } else {
                s@
            }),
        decreases chars@.len() - i,
    {
        let code: u32 = code_point(chars[i]);
        let ghost next = body.take(i - start + 1);
        proof {
            assert(next.drop_last() =~= body.take(i - start));
            assert(next.last() == chars@[i as int]);
        }
        if code < 48 || code > 57 {
            proof {
                assert(body[i - start] == chars@[i as int]);
                assert(!is_digit(body[i - start]));
            }
            return None;
        }
        let d: u64 = (code - 48) as u64;
        if d > max || value > (max - d) / 10 {
            proof {
                if all_digits(body) {
                    digits_value_grows(body, i - start + 1);
                }
            }
            return None;
        }
        value = value * 10 + d;
        proof {
            assert forall|k: int| 0 <= k < next.len() implies is_digit(#[trigger] next[k]) by {
                if k < i - start {
                    assert(next[k] == body.take(i - start)[k]);
                }
            }
        }
        i = i + 1;
    }
    proof {
        assert(body.take(i - start) =~= body);
    }
    Some(value)
}

/// A written number holds digits alone, and reading them back gives the number.
pub proof fn decimal_reads_back(n: nat)
    ensures
        decimal_text(n).len() > 0,
        all_digits(decimal_text(n)),
        digits_value(decimal_text(n)) == n,
        forall|max: nat| n <= max ==> #[trigger] parsed_number(decimal_text(n), max) == Some(n),
    decreases n,
{
    if n >= 10 {
        decimal_reads_back(n / 10);
        let s = decimal_text(n);
        assert(s.drop_last() =~= decimal_text(n / 10));
        assert forall|i: int| 0 <= i < s.len() implies is_digit(#[trigger] s[i]) by {
            if i < s.len() - 1 {
                assert(s[i] == decimal_text(n / 10)[i]);
            }
        }
    } else {
        reveal_with_fuel(digits_value, 2);
        assert(decimal_text(n).drop_last() =~= Seq::<char>::empty());
    }
    assert(is_digit(decimal_text(n)[0]));
}

/// Different numbers are written differently.
pub proof fn decimal_is_injective(a: nat, b: nat)
    requires
        decimal_text(a) == decimal_text(b),
    ensures
        a == b,
{
    decimal_reads_back(a);
    decimal_reads_back(b);
}

} // verus!
