//! Text helpers: decimal numbers appended to strings, whitespace trimming
//! and comparison of text.
use vstd::prelude::*;

verus! {

/// The character of the decimal digit `d`.
pub open spec fn digit_char(d: nat) -> char {
    if d == 0 {
        '0'
    } else if d == 1 {
        '1'
    } else if d == 2 {
        '2'
    } else if d == 3 {
        '3'
    } else if d == 4 {
        '4'
    } else if d == 5 {
        '5'
    } else if d == 6 {
        '6'
    } else if d == 7 {
        '7'
    } else if d == 8 {
        '8'
    } else {
        '9'
    }
}

/// The decimal representation of `n`, without leading zeros.
pub open spec fn decimal(n: nat) -> Seq<char>
    decreases n,
{
    if n < 10 {
        seq![digit_char(n)]
    } else {
        decimal(n / 10) + seq![digit_char(n % 10)]
    }
}

fn digit_str(d: u64) -> (r: &'static str)
    requires
        d < 10,
    ensures
        r@ == seq![digit_char(d as nat)],
{
    if d == 0 {
        proof {
            reveal_strlit("0");
        }
        "0"
    } else if d == 1 {
        proof {
            reveal_strlit("1");
        }
        "1"
    } else if d == 2 {
        proof {
            reveal_strlit("2");
        }
        "2"
    } else if d == 3 {
        proof {
            reveal_strlit("3");
        }
        "3"
    } else if d == 4 {
        proof {
            reveal_strlit("4");
        }
        "4"
    } else if d == 5 {
        proof {
            reveal_strlit("5");
        }
        "5"
    } else if d == 6 {
        proof {
            reveal_strlit("6");
        }
        "6"
    } else if d == 7 {
        proof {
            reveal_strlit("7");
        }
        "7"
    } else if d == 8 {
        proof {
            reveal_strlit("8");
        }
        "8"
    } else {
        proof {
            reveal_strlit("9");
        }
        "9"
    }
}

/// Appends the decimal representation of `n` to `s`.
pub fn push_decimal(s: &mut String, n: u64)
    ensures
        final(s)@ == old(s)@ + decimal(n as nat),
    decreases n,
{
    if n >= 10 {
        push_decimal(s, n / 10);
    }
    s.append(digit_str(n % 10));
    proof {
        if n >= 10 {
            assert(s@ =~= old(s)@ + decimal(n as nat));
        }
    }
}

/// `base` followed by the decimal representation of `n`.
pub fn concat_decimal(base: &str, n: u64) -> (r: String)
    ensures
        r@ == base@ + decimal(n as nat),
{
    let mut s = String::from_str(base);
    push_decimal(&mut s, n);
    s
}


/// The Unicode White_Space property, as `char::is_whitespace` tests it.
pub open spec fn spec_is_whitespace(c: char) -> bool {
    let u = c as u32;
    (0x9 <= u <= 0xD) || u == 0x20 || u == 0x85 || u == 0xA0 || u == 0x1680 || (0x2000 <= u
        <= 0x200A) || u == 0x2028 || u == 0x2029 || u == 0x202F || u == 0x205F || u == 0x3000
}

/// Whether `c` is whitespace by the Unicode White_Space property, as
/// `char::is_whitespace` decides it.
pub fn is_whitespace(c: char) -> (r: bool)
    ensures
        r == spec_is_whitespace(c),
{
    let u = c as u32;
    (0x9 <= u && u <= 0xD) || u == 0x20 || u == 0x85 || u == 0xA0 || u == 0x1680 || (0x2000 <= u
        && u <= 0x200A) || u == 0x2028 || u == 0x2029 || u == 0x202F || u == 0x205F || u == 0x3000
}

/// `s` without its trailing carriage returns.
pub open spec fn strip_trailing_cr(s: Seq<char>) -> Seq<char>
    decreases s.len(),
{
    if s.len() > 0 && s.last() == '\r' {
        strip_trailing_cr(s.drop_last())
    } else {
        s
    }
}

/// `s` without its leading whitespace.
pub open spec fn trim_start_ws(s: Seq<char>) -> Seq<char>
    decreases s.len(),
{
    if s.len() > 0 && spec_is_whitespace(s[0]) {
        trim_start_ws(s.drop_first())
    } else {
        s
    }
}

/// `s` without its trailing whitespace.
pub open spec fn trim_end_ws(s: Seq<char>) -> Seq<char>
    decreases s.len(),
{
    if s.len() > 0 && spec_is_whitespace(s.last()) {
        trim_end_ws(s.drop_last())
    } else {
        s
    }
}

/// `s` without trailing carriage returns, then without surrounding whitespace.
pub open spec fn clean_line(s: Seq<char>) -> Seq<char> {
    trim_end_ws(trim_start_ws(strip_trailing_cr(s)))
}

/// Drops trailing carriage returns, then leading and trailing whitespace.
pub fn trim_line(s: &str) -> (r: String)
    ensures
        r@ == clean_line(s@),
{
    let n = s.unicode_len();
    let mut end: usize = n;
    assert(s@.take(n as int) =~= s@);
    while end > 0 && s.get_char(end - 1) == '\r'
        invariant
            end <= n,
            n == s@.len(),
            strip_trailing_cr(s@) == strip_trailing_cr(s@.take(end as int)),
        decreases end,
    {
        assert(s@.take(end - 1) =~= s@.take(end as int).drop_last());
        end = end - 1;
    }
    assert(strip_trailing_cr(s@) == s@.take(end as int));
    let ghost t = s@.take(end as int);
    let mut start: usize = 0;
    while start < end && is_whitespace(s.get_char(start))
        invariant
            start <= end <= n,
            n == s@.len(),
            t == s@.take(end as int),
            trim_start_ws(t) == trim_start_ws(s@.subrange(start as int, end as int)),
        decreases end - start,
    {
        assert(s@.subrange(start + 1, end as int) =~= s@.subrange(
            start as int,
            end as int,
        ).drop_first());
        start = start + 1;
    }
    assert(trim_start_ws(t) == s@.subrange(start as int, end as int));
    let ghost u = s@.subrange(start as int, end as int);
    while end > start && is_whitespace(s.get_char(end - 1))
        invariant
            start <= end <= n,
            n == s@.len(),
            trim_end_ws(u) == trim_end_ws(s@.subrange(start as int, end as int)),
        decreases end,
    {
        assert(s@.subrange(start as int, end - 1) =~= s@.subrange(
            start as int,
            end as int,
        ).drop_last());
        end = end - 1;
    }
    assert(trim_end_ws(u) == s@.subrange(start as int, end as int));
    String::from_str(s.substring_char(start, end))
}

/// `s` and `t` hold the same text.
pub fn text_eq(s: &str, t: &str) -> (r: bool)
    ensures
        r == (s@ == t@),
{
    let n = s.unicode_len();
    if n != t.unicode_len() {
        return false;
    }
    let mut i: usize = 0;
    while i < n
        invariant
            n == s@.len() == t@.len(),
            0 <= i <= n,
            forall|j: int| 0 <= j < i ==> s@[j] == t@[j],
        decreases n - i,
    {
        if s.get_char(i) != t.get_char(i) {
            return false;
        }
        i = i + 1;
    }
    assert(s@ =~= t@);
    true
}

} // verus!
