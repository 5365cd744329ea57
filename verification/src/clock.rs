//! The game clock's `mm:ss` text.

use vstd::prelude::*;
use vstd::string::StringExecFns;

verus! {

/// The character of the decimal digit `d`.
pub open spec fn digit_char(d: int) -> char {
    seq!['0', '1', '2', '3', '4', '5', '6', '7', '8', '9'][d]
}

/// The decimal representation of `n`, without leading zeros.
pub open spec fn decimal(n: nat) -> Seq<char>
    decreases n,
{
    if n < 10 {
        seq![digit_char(n as int)]
    } else {
        decimal(n / 10) + seq![digit_char((n % 10) as int)]
    }
}

/// `n` in decimal, padded with a leading zero to at least two digits.
pub open spec fn two_digits(n: nat) -> Seq<char> {
    if n < 10 {
        seq!['0'] + decimal(n)
    } else {
        decimal(n)
    }
}

/// Elapsed seconds as minutes and seconds, each at least two digits wide.
pub open spec fn clock_text(secs: nat) -> Seq<char> {
    two_digits(secs / 60) + seq![':'] + two_digits(secs % 60)
}

/// The number that the decimal digits `s` spell.
pub open spec fn read_decimal(s: Seq<char>) -> int
    decreases s.len(),
{
    if s.len() == 0 {
        0
    } else {
        read_decimal(s.drop_last()) * 10 + (s.last() as int - '0' as int)
    }
}

/// Every character of `s` is one of `0`-`9`.
pub open spec fn all_digits(s: Seq<char>) -> bool {
    forall|i: int| 0 <= i < s.len() ==> '0' <= #[trigger] s[i] <= '9'
}

/// `digit_char(d)` is the ASCII character of the decimal digit `d`.
pub proof fn lemma_digit_char(d: int)
    requires
        0 <= d < 10,
    ensures
        digit_char(d) as int == '0' as int + d,
        '0' <= digit_char(d) <= '9',
{
    let digits = seq!['0', '1', '2', '3', '4', '5', '6', '7', '8', '9'];
    assert(digits[0] == '0' && digits[1] == '1' && digits[2] == '2' && digits[3] == '3');
    assert(digits[4] == '4' && digits[5] == '5' && digits[6] == '6' && digits[7] == '7');
    assert(digits[8] == '8' && digits[9] == '9');
}

/// The decimal text of `n` is a non-empty run of digits that reads back as `n`,
/// with no leading zero.
pub proof fn lemma_decimal_reads_back(n: nat)
    ensures
        read_decimal(decimal(n)) == n,
        all_digits(decimal(n)),
        decimal(n).len() >= 1,
        decimal(n)[0] == '0' ==> n == 0,
        n < 10 ==> decimal(n).len() == 1,
        n >= 10 ==> decimal(n).len() >= 2,
        10 <= n < 100 ==> decimal(n).len() == 2,
    decreases n,
{
    let t = decimal(n);
    if n < 10 {
        lemma_digit_char(n as int);
        assert(t.drop_last() =~= Seq::<char>::empty());
        assert(read_decimal(t.drop_last()) == 0);
        assert(t.last() == digit_char(n as int));
    } else {
        lemma_decimal_reads_back(n / 10);
        lemma_digit_char((n % 10) as int);
        let prefix = decimal(n / 10);
        assert(t.drop_last() =~= prefix);
        assert(t.last() == digit_char((n % 10) as int));
        assert(read_decimal(t) == read_decimal(prefix) * 10 + (n % 10));
        assert(t[0] == prefix[0]);
        assert forall|i: int| 0 <= i < t.len() implies '0' <= #[trigger] t[i] <= '9' by {
            if i < prefix.len() {
                assert(t[i] == prefix[i]);
            }
        }
        if n < 100 {
            assert(n / 10 < 10);
        }
    }
}

/// A number below 100 shown with at least two digits reads back as itself, in
/// exactly two digits.
pub proof fn lemma_two_digits_reads_back(n: nat)
    requires
        n < 100,
    ensures
        read_decimal(two_digits(n)) == n,
        all_digits(two_digits(n)),
        two_digits(n).len() == 2,
{
    lemma_decimal_reads_back(n);
    let t = two_digits(n);
    if n < 10 {
        let z = seq!['0'];
        assert(t.drop_last() =~= z);
        assert(z.drop_last() =~= Seq::<char>::empty());
        assert(read_decimal(z.drop_last()) == 0);
        assert(read_decimal(z) == 0);
        assert(t.last() == decimal(n)[0]);
        assert(read_decimal(decimal(n)) == decimal(n)[0] as int - '0' as int) by {
            assert(decimal(n).drop_last() =~= Seq::<char>::empty());
            assert(read_decimal(decimal(n).drop_last()) == 0);
        }
        assert(read_decimal(t) == read_decimal(t.drop_last()) * 10 + (t.last() as int - '0' as int));
        assert forall|i: int| 0 <= i < t.len() implies '0' <= #[trigger] t[i] <= '9' by {
            if i == 1 {
                assert(t[1] == decimal(n)[0]);
            }
        }
    }
}

/// The clock text of `secs` is the minutes in at least two digits, a colon, and
/// the seconds in exactly two digits; each part reads back as the elapsed
/// minutes and the remaining seconds.
pub proof fn lemma_clock_text_reads_back(secs: nat)
    ensures
        ({
            let t = clock_text(secs);
            &&& t.len() >= 5
            &&& t[t.len() - 3] == ':'
            &&& all_digits(t.take(t.len() - 3))
            &&& read_decimal(t.take(t.len() - 3)) == secs / 60
            &&& all_digits(t.skip(t.len() - 2))
            &&& read_decimal(t.skip(t.len() - 2)) == secs % 60
        }),
{
    let m = secs / 60;
    let s = secs % 60;
    let t = clock_text(secs);
    lemma_two_digits_reads_back(s);
    lemma_decimal_reads_back(m);
    let mt = two_digits(m);
    if m < 10 {
        lemma_two_digits_reads_back(m);
    }
    assert(mt.len() >= 2);
    assert(read_decimal(mt) == m && all_digits(mt)) by {
        if m >= 10 {
            assert(mt == decimal(m));
        }
    }
    assert(t.take(t.len() - 3) =~= mt);
    assert(t.skip(t.len() - 2) =~= two_digits(s));
    assert(t[t.len() - 3] == ':');
}

fn digit_str(d: u32) -> (s: &'static str)
    requires
        d < 10,
    ensures
        s@ == seq![digit_char(d as int)],
{
    proof {
        reveal_strlit("0");
        reveal_strlit("1");
        reveal_strlit("2");
        reveal_strlit("3");
        reveal_strlit("4");
        reveal_strlit("5");
        reveal_strlit("6");
        reveal_strlit("7");
        reveal_strlit("8");
        reveal_strlit("9");
    }
    let s = match d {
        0 => "0",
        1 => "1",
        2 => "2",
        3 => "3",
        4 => "4",
        5 => "5",
        6 => "6",
        7 => "7",
        8 => "8",
        _ => "9",
    };
    assert(s@ =~= seq![digit_char(d as int)]);
    s
}

fn push_decimal(out: &mut String, n: u32)
    ensures
        final(out)@ == old(out)@ + decimal(n as nat),
    decreases n,
{
    if n >= 10 {
        push_decimal(out, n / 10);
    }
    out.append(digit_str(n % 10));
    assert(final(out)@ =~= old(out)@ + decimal(n as nat));
}

fn push_two_digits(out: &mut String, n: u32)
    ensures
        final(out)@ == old(out)@ + two_digits(n as nat),
{
    if n < 10 {
        out.append(digit_str(0));
    }
    push_decimal(out, n);
    assert(final(out)@ =~= old(out)@ + two_digits(n as nat));
}

/// Formats elapsed seconds as `mm:ss`.
pub fn format_time(secs: u32) -> (text: String)
    ensures
        text@ == clock_text(secs as nat),
{
    let mut out = String::new();
    push_two_digits(&mut out, secs / 60);
    out.append(":");
    push_two_digits(&mut out, secs % 60);
    proof {
        reveal_strlit(":");
    }
    assert(out@ =~= clock_text(secs as nat));
    out
}

} // verus!
