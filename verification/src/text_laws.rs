//! What cutting text and reading numbers amount to, told from the characters.

use crate::text;
use vstd::prelude::*;

verus! {

// ---------------------------------------------------------------------------
// Optional text and lists
// ---------------------------------------------------------------------------

/// A text that is given is used as it is, even an empty one, and the default only where
/// none is given.
pub proof fn a_given_text_is_used(given: Option<String>, default: Seq<char>)
    ensures
        given matches Some(s) ==> text::text_or(given, default) == s@ && text::text_in(given)
            == Some(s@),
        given is None ==> text::text_or(given, default) == default && text::text_in(given) is None,
{
}

/// A list holds the texts of its strings, one for one.
pub proof fn a_list_holds_its_texts(list: Seq<String>)
    ensures
        text::texts(list).len() == list.len(),
        forall|i: int| 0 <= i < list.len() ==> #[trigger] text::texts(list)[i] == list[i]@,
{
}

// ---------------------------------------------------------------------------
// Pieces
// ---------------------------------------------------------------------------

/// The pieces with the separator between them.
pub open spec fn rejoined(parts: Seq<Seq<char>>, sep: char) -> Seq<char>
    decreases parts.len(),
{
    if parts.len() == 0 {
        Seq::empty()
    } else if parts.len() == 1 {
        parts[0]
    } else {
        parts[0] + seq![sep] + rejoined(parts.skip(1), sep)
    }
}

/// Cutting loses nothing and cuts as often as it may: with the separator between them
/// the pieces are the text again, there are at most `limit` of them, no piece but the
/// last holds a separator, and the last holds one only if there are `limit` pieces.
pub proof fn pieces_rejoin(s: Seq<char>, sep: char, limit: nat)
    requires
        limit > 0,
    ensures
        ({
            let parts = text::pieces(s, sep, limit);
            &&& rejoined(parts, sep) == s
            &&& 0 < parts.len() <= limit
            &&& forall|k: int, i: int|
                0 <= k < parts.len() && 0 <= i < parts[k].len() && (k < parts.len() - 1
                    || parts.len() < limit) ==> #[trigger] parts[k][i] != sep
        }),
    decreases limit,
{
    let parts = text::pieces(s, sep, limit);
    text::first_at_finds(s, sep);
    let at = text::first_at(s, sep);
    if limit > 1 && at < s.len() {
        let rest = s.skip(at + 1);
        let others = text::pieces(rest, sep, (limit - 1) as nat);
        pieces_rejoin(rest, sep, (limit - 1) as nat);
        assert(parts.skip(1) =~= others);
        assert(s =~= s.take(at) + seq![sep] + rest);
        assert forall|k: int, i: int|
            0 <= k < parts.len() && 0 <= i < parts[k].len() && (k < parts.len() - 1 || parts.len()
                < limit) implies #[trigger] parts[k][i] != sep by {
            if k > 0 {
                assert(parts[k] == others[k - 1]);
                assert(others[k - 1][i] != sep);
            } else {
                assert(parts[k] == s.take(at));
            }
        }
    } else {
        assert forall|k: int, i: int|
            0 <= k < parts.len() && 0 <= i < parts[k].len() && (k < parts.len() - 1 || parts.len()
                < limit) implies #[trigger] parts[k][i] != sep by {
            assert(parts[k] == s);
        }
    }
}

// ---------------------------------------------------------------------------
// Numbers
// ---------------------------------------------------------------------------

/// A number below ten is written as its digit, and any other as what it holds of tens
/// followed by the digit that is left.
pub proof fn digits_follow_in_order(tens: nat, d: nat)
    requires
        d < 10,
    ensures
        text::decimal_text(d) == seq![(48 + d) as char],
        tens > 0 ==> text::decimal_text(10 * tens + d) == text::decimal_text(tens) + seq![
            (48 + d) as char,
        ],
{
    if tens > 0 {
        let n = 10 * tens + d;
        assert(n / 10 == tens && n % 10 == d);
        assert(text::decimal_text(n) =~= text::decimal_text(tens) + seq![(48 + d) as char]);
    }
}

/// `n` zeros.
pub open spec fn zero_run(n: nat) -> Seq<char> {
    Seq::new(n, |i: int| '0')
}

/// Whether `s` writes the number: in decimal, behind any zeros, and behind one plus sign
/// or none.
pub open spec fn writes(s: Seq<char>, n: nat) -> bool {
    exists|zeros: nat|
        {
            let digits = #[trigger] zero_run(zeros) + text::decimal_text(n);
            s == digits || s == seq!['+'] + digits
        }
}

proof fn zeros_add_nothing(zeros: nat, s: Seq<char>)
    requires
        text::all_digits(s),
    ensures
        text::all_digits(zero_run(zeros) + s),
        text::digits_value(zero_run(zeros) + s) == text::digits_value(s),
    decreases s.len(), zeros,
{
    let run = zero_run(zeros);
    let whole = run + s;
    assert forall|i: int| 0 <= i < whole.len() implies text::is_digit(#[trigger] whole[i]) by {
        if i >= zeros {
            assert(whole[i] == s[i - zeros]);
        }
    }
    if s.len() > 0 {
        assert(whole.drop_last() =~= run + s.drop_last());
        assert(text::all_digits(s.drop_last()));
        zeros_add_nothing(zeros, s.drop_last());
    } else if zeros > 0 {
        let less = zero_run((zeros - 1) as nat);
        assert(whole.drop_last() =~= less + s);
        zeros_add_nothing((zeros - 1) as nat, s);
        assert(whole.last() == '0');
    } else {
        assert(whole =~= s);
    }
}

proof fn digits_are_written(s: Seq<char>) -> (zeros: nat)
    requires
        text::all_digits(s),
        s.len() > 0,
    ensures
        s == zero_run(zeros) + text::decimal_text(text::digits_value(s)),
    decreases s.len(),
{
    let n = text::digits_value(s);
    let front = s.drop_last();
    let d = (s.last() as int - 48) as nat;
    assert(text::is_digit(s[s.len() - 1]));
    assert(s.last() == (48 + d) as char);
    if front.len() == 0 {
        assert(text::digits_value(front) == 0);
        assert(n == d);
        assert(text::decimal_text(n) == seq![text::digit(n)]);
        assert(s =~= zero_run(0) + text::decimal_text(n));
        0
    } else {
        assert(text::all_digits(front));
        let zeros = digits_are_written(front);
        let tens = text::digits_value(front);
        assert(n == 10 * tens + d);
        assert(s =~= front.push(s.last()));
        if tens > 0 {
            digits_follow_in_order(tens, d);
            assert(s =~= zero_run(zeros) + text::decimal_text(n));
            zeros
        } else {
            assert(text::decimal_text(0) == seq![text::digit(0)]);
            assert(text::digit(0) == '0');
            assert(text::decimal_text(n) == seq![text::digit(n)]);
            assert(s =~= zero_run(zeros + 1) + text::decimal_text(n));
            zeros + 1
        }
    }
}

proof fn written_are_digits(zeros: nat, n: nat)
    ensures
        ({
            let s = zero_run(zeros) + text::decimal_text(n);
            &&& s.len() > 0
            &&& s[0] != '+'
            &&& text::all_digits(s)
            &&& text::digits_value(s) == n
        }),
{
    let s = zero_run(zeros) + text::decimal_text(n);
    text::decimal_reads_back(n);
    zeros_add_nothing(zeros, text::decimal_text(n));
    assert(text::is_digit(s[0]));
}

/// A number is read from a text exactly if the text writes it and it is not too large.
pub proof fn a_number_is_read_as_written(s: Seq<char>, max: nat, n: nat)
    ensures
        text::parsed_number(s, max) == Some(n) <==> writes(s, n) && n <= max,
{
    let body = if s.len() > 0 && s[0] == '+' {
        s.skip(1)
    } else {
        s
    };
    if text::parsed_number(s, max) == Some(n) {
        let zeros = digits_are_written(body);
        if s.len() > 0 && s[0] == '+' {
            assert(s =~= seq!['+'] + body);
        }
        assert(writes(s, n));
    }
    if writes(s, n) && n <= max {
        let zeros = choose|zeros: nat|
            {
                let digits = #[trigger] zero_run(zeros) + text::decimal_text(n);
                s == digits || s == seq!['+'] + digits
            };
        let digits = zero_run(zeros) + text::decimal_text(n);
        written_are_digits(zeros, n);
        if s == seq!['+'] + digits {
            assert(s.skip(1) =~= digits);
        }
        assert(body == digits);
    }
}

/// A text writes one number at most.
pub proof fn no_text_writes_two_numbers(s: Seq<char>, a: nat, b: nat)
    requires
        writes(s, a),
        writes(s, b),
    ensures
        a == b,
{
    a_number_is_read_as_written(s, a + b, a);
    a_number_is_read_as_written(s, a + b, b);
}

} // verus!
