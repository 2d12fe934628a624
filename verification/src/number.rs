//! Numbers as they are written in lists and typed at prompts.
use vstd::prelude::*;

verus! {

/// The character of a decimal digit.
pub open spec fn digit(d: nat) -> char {
    (0x30 + d) as char
}

/// A number in decimal, without leading zeros.
pub open spec fn decimal(n: nat) -> Seq<char>
    decreases n,
{
    if n < 10 {
        seq![digit(n)]
    } else {
        decimal(n / 10).push(digit(n % 10))
    }
}

/// A character is a decimal digit.
pub open spec fn is_digit(c: char) -> bool {
    '0' <= c <= '9'
}

/// The number that a row of decimal digits stands for.
pub open spec fn value(s: Seq<char>) -> nat
    decreases s.len(),
{
    if s.len() == 0 {
        0
    } else {
        value(s.drop_last()) * 10 + (s.last() as u32 - 0x30) as nat
    }
}

/// What follows an optional plus sign.
pub open spec fn unsigned(s: Seq<char>) -> Seq<char> {
    if s.len() > 0 && s.first() == '+' {
        s.drop_first()
    } else {
        s
    }
}

/// The number that a text writes down: an optional plus sign, then one decimal digit or more,
/// and nothing else. A number that no `usize` can hold is none.
pub open spec fn written(s: Seq<char>) -> Option<usize> {
    let row = unsigned(s);
    if row.len() > 0 && (forall|i: int| 0 <= i < row.len() ==> is_digit(#[trigger] row[i]))
        && value(row) <= usize::MAX {
        Some(value(row) as usize)
    } else {
        None
    }
}

/// The text of one decimal digit.
fn digit_text(d: usize) -> (r: &'static str)
    requires
        d < 10,
    ensures
        r@ == seq![digit(d as nat)],
{
    proof {
        reveal_strlit("0");
        reveal_strlit("1");
        reveal_strlit("2");
        reveal_strlit("3");
        reveal_strlit("4");
        reveal_strlit("5");
        reveal_strlit("6");
        reveal_strlit("7");
        reveal_strlit("8");
        reveal_strlit("9");
    }
    let r = match d {
        0 => "0",
        1 => "1",
        2 => "2",
        3 => "3",
        4 => "4",
        5 => "5",
        6 => "6",
        7 => "7",
        8 => "8",
        _ => "9",
    };
    assert(r@ =~= seq![digit(d as nat)]);
    r
}

/// Writes a number in decimal.
pub fn write_number(n: usize) -> (r: String)
    ensures
        r@ == decimal(n as nat),
    decreases n,
{
    if n < 10 {
        digit_text(n).to_owned()
    } else {
        let mut r = write_number(n / 10);
        r.append(digit_text(n % 10));
        assert(r@ =~= decimal(n as nat));
        r
    }
}

proof fn lemma_value_grows(s: Seq<char>, i: int)
    requires
        0 <= i <= s.len(),
        forall|j: int| 0 <= j < s.len() ==> is_digit(#[trigger] s[j]),
    ensures
        value(s.take(i)) <= value(s),
    decreases s.len() - i,
{
    if i < s.len() {
        assert(s.take(i + 1).drop_last() =~= s.take(i));
        assert(value(s.take(i)) <= value(s.take(i + 1)));
        lemma_value_grows(s, i + 1);
    } else {
        assert(s.take(i) =~= s);
    }
}

/// Reads the number that a text writes down.
pub fn read_number(text: &str) -> (r: Option<usize>)
    ensures
        r == written(text@),
{
    let len = text.unicode_len();
    let start: usize = if len > 0 && text.get_char(0) == '+' {
        1
    } else {
        0
    };
    let ghost row = unsigned(text@);
    assert(row =~= text@.skip(start as int));
    if start == len {
        return None;
    }
    let mut n: usize = 0;
    let mut i: usize = start;
    assert(row.take(0) =~= Seq::empty());
    while i < len
        invariant
            start <= i <= len,
            len == text@.len(),
            row == text@.skip(start as int),
            row == unsigned(text@),
            forall|j: int| 0 <= j < i - start ==> is_digit(#[trigger] row[j]),
            n == value(row.take(i - start)),
        decreases len - i,
    {
        let c = text.get_char(i);
        assert(row[i - start] == c);
        if c < '0' || '9' < c {
            assert(!is_digit(row[i - start]));
            return None;
        }
        let d = (c as u32 - 0x30) as usize;
        assert(row.take(i - start + 1).drop_last() =~= row.take(i - start));
        assert(row.take(i - start + 1).last() == c);
        if n > (usize::MAX - d) / 10 {
            proof {
                assert(value(row.take(i - start + 1)) == n * 10 + d);
                assert(n * 10 + d > usize::MAX);
                if forall|j: int| 0 <= j < row.len() ==> is_digit(#[trigger] row[j]) {
                    lemma_value_grows(row, i - start + 1);
                }
            }
            return None;
        }
        n = n * 10 + d;
        i += 1;
    }
    assert(row.take(i - start) =~= row);
    Some(n)
}

proof fn lemma_decimal_digits(n: nat)
    ensures
        decimal(n).len() > 0,
        forall|i: int| 0 <= i < decimal(n).len() ==> is_digit(#[trigger] decimal(n)[i]),
        value(decimal(n)) == n,
    decreases n,
{
    if n < 10 {
        assert(decimal(n).drop_last() =~= Seq::empty());
        assert(decimal(n).last() == digit(n));
        assert(value(decimal(n).drop_last()) == 0);
    } else {
        lemma_decimal_digits(n / 10);
        assert(decimal(n).drop_last() =~= decimal(n / 10));
        assert(decimal(n).last() == digit(n % 10));
    }
}

/// Reading a number that was written in decimal gives the number back.
pub proof fn law_number_round_trip(n: usize)
    ensures
        written(decimal(n as nat)) == Some(n),
{
    lemma_decimal_digits(n as nat);
    assert(is_digit(decimal(n as nat)[0]));
    assert(unsigned(decimal(n as nat)) == decimal(n as nat));
}

/// A digit more makes a row of digits stand for ten times as much and the digit, as far as a
/// `usize` can hold it.
pub proof fn law_one_more_digit(row: Seq<char>, n: usize, c: char)
    requires
        written(row) == Some(n),
        '0' <= c <= '9',
    ensures
        written(row.push(c)) == if n * 10 + (c as u32 - '0' as u32) <= usize::MAX {
            Some((n * 10 + (c as u32 - '0' as u32)) as usize)
        } else {
            None
        },
{
    let s = unsigned(row);
    let t = s.push(c);
    assert(row.len() > 0);
    assert(row.push(c).first() == row.first());
    assert(unsigned(row.push(c)) =~= t);
    assert(t.drop_last() =~= s);
    assert(value(t) == n * 10 + (c as u32 - 0x30));
    assert forall|i: int| 0 <= i < t.len() implies is_digit(#[trigger] t[i]) by {
        if i < s.len() {
            assert(t[i] == s[i]);
        }
    }
}

/// One digit is the number that it shows, with a plus sign before it too. Neither nothing nor a
/// plus sign alone is a number.
pub proof fn law_one_digit(c: char)
    ensures
        '0' <= c <= '9' ==> written(seq![c]) == Some((c as u32 - '0' as u32) as usize),
        '0' <= c <= '9' ==> written(seq!['+', c]) == Some((c as u32 - '0' as u32) as usize),
        written(Seq::empty()) is None,
        written(seq!['+']) is None,
{
    let s = seq![c];
    assert(seq!['+', c].drop_first() =~= s);
    assert(s.drop_last() =~= Seq::empty());
    assert(value(s.drop_last()) == 0);
    if '0' <= c <= '9' {
        assert forall|i: int| 0 <= i < s.len() implies is_digit(#[trigger] s[i]) by {}
        assert(unsigned(s) == s);
        assert(value(s) == (c as u32 - 0x30) as nat);
    }
    assert(seq!['+'].drop_first().len() == 0);
}

/// A text with anything in it but digits, save a plus sign at its start, is no number.
pub proof fn law_only_digits(s: Seq<char>, i: int)
    requires
        0 <= i < s.len(),
        !('0' <= s[i] <= '9'),
        !(i == 0 && s[i] == '+'),
    ensures
        written(s) is None,
{
    let row = unsigned(s);
    if s.first() == '+' {
        assert(row[i - 1] == s[i]);
        assert(!is_digit(row[i - 1]));
    } else {
        assert(!is_digit(row[i]));
    }
}

/// A number in decimal is the number without its last digit, and then that digit.
pub proof fn law_decimal(n: nat, d: nat)
    requires
        d < 10,
    ensures
        decimal(d) == seq![('0' as u32 + d) as char],
        n > 0 ==> decimal(n * 10 + d) == decimal(n).push(('0' as u32 + d) as char),
{
    if n > 0 {
        assert((n * 10 + d) / 10 == n);
        assert((n * 10 + d) % 10 == d);
    }
}

} // verus!
