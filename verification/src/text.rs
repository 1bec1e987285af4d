//! Text: decimal numbers, and pieces of a document put together.

use vstd::arithmetic::power::pow;
use vstd::prelude::*;
use vstd::string::{StrSliceExecFns, StringExecFns};

verus! {

/// [`String::push`] appends the character.
pub assume_specification[ String::push ](s: &mut String, c: char)
    ensures
        final(s)@ == old(s)@.push(c),
;

/// The decimal digit `d`.
pub open spec fn digit(d: int) -> char {
    (48 + d) as char
}

/// The decimal digits of `n`, without leading zeros.
pub open spec fn decimal(n: nat) -> Seq<char>
    decreases n,
{
    if n < 10 {
        seq![digit(n as int)]
    } else {
        decimal(n / 10).push(digit((n % 10) as int))
    }
}

fn digit_char(d: u8) -> (c: char)
    requires
        d < 10,
    ensures
        c == digit(d as int),
{
    (48 + d) as char
}

/// Appends the decimal digit `d`.
pub(crate) fn push_digit(s: &mut String, d: u8)
    requires
        d < 10,
    ensures
        final(s)@ == old(s)@.push(digit(d as int)),
{
    s.push(digit_char(d));
}

/// Appends `n` in decimal.
pub(crate) fn push_decimal(s: &mut String, n: u128)
    ensures
        final(s)@ == old(s)@ + decimal(n as nat),
    decreases n,
{
    let ghost s0 = s@;
    if n >= 10 {
        push_decimal(s, n / 10);
        s.push(digit_char((n % 10) as u8));
        assert(s@ =~= s0 + decimal(n as nat));
    } else {
        s.push(digit_char(n as u8));
        assert(s@ =~= s0 + decimal(n as nat));
    }
}

/// Whether two texts are the same.
pub(crate) fn same(a: &str, b: &str) -> (r: bool)
    ensures
        r == (a@ == b@),
{
    let x: String = a.to_owned();
    let y: String = b.to_owned();
    x == y
}

/// The number that decimal digits stand for.
pub open spec fn number(s: Seq<char>) -> int
    decreases s.len(),
{
    if s.len() == 0 {
        0
    } else {
        number(s.drop_last()) * 10 + (s.last() as int - 48)
    }
}

/// Decimal digits hold nothing but digits, at least one, and stand for the number
/// that they were written for.
pub proof fn law_decimal_reads_back(n: nat)
    ensures
        number(decimal(n)) == n,
        decimal(n).len() > 0,
        forall|i: int| 0 <= i < decimal(n).len() ==> 48 <= #[trigger] decimal(n)[i] as int <= 57,
    decreases n,
{
    if n < 10 {
        assert(decimal(n).drop_last() =~= Seq::empty());
        assert(number(Seq::empty()) == 0);
    } else {
        law_decimal_reads_back(n / 10);
        assert(decimal(n).drop_last() =~= decimal(n / 10));
    }
}

/// Whether a character is white space.
pub open spec fn is_space(c: char) -> bool {
    let n = c as int;
    ||| 0x9 <= n <= 0xd
    ||| n == 0x20
    ||| n == 0x85
    ||| n == 0xa0
    ||| n == 0x1680
    ||| 0x2000 <= n <= 0x200a
    ||| n == 0x2028
    ||| n == 0x2029
    ||| n == 0x202f
    ||| n == 0x205f
    ||| n == 0x3000
}

/// A text without the white space in front.
pub open spec fn without_lead(s: Seq<char>) -> Seq<char>
    decreases s.len(),
{
    if s.len() > 0 && is_space(s[0]) {
        without_lead(s.skip(1))
    } else {
        s
    }
}

/// A text without the white space at its end.
pub open spec fn without_trail(s: Seq<char>) -> Seq<char>
    decreases s.len(),
{
    if s.len() > 0 && is_space(s.last()) {
        without_trail(s.drop_last())
    } else {
        s
    }
}

/// A text without the white space around it.
pub open spec fn trimmed(s: Seq<char>) -> Seq<char> {
    without_trail(without_lead(s))
}

fn space(c: char) -> (b: bool)
    ensures
        b == is_space(c),
{
    let n: u32 = c as u32;
    (0x9 <= n && n <= 0xd) || n == 0x20 || n == 0x85 || n == 0xa0 || n == 0x1680 || (0x2000 <= n
        && n <= 0x200a) || n == 0x2028 || n == 0x2029 || n == 0x202f || n == 0x205f || n == 0x3000
}

/// The characters of a text without the white space around it.
pub(crate) fn trim_chars(s: &str) -> (out: Vec<char>)
    ensures
        out@ == trimmed(s@),
{
    let mut all: Vec<char> = Vec::new();
    for c in it: s.chars()
        invariant
            it.seq() == s@,
            all@ == s@.take(it.index()),
    {
        let ghost k = it.index();
        all.push(c);
        assert(all@ =~= s@.take(k + 1));
    }
    assert(s@.take(s@.len() as int) =~= s@);
    let mut from: usize = 0;
    assert(s@.skip(0) =~= s@);
    while from < all.len() && space(all[from])
        invariant
            all@ == s@,
            from <= all@.len(),
            without_lead(s@) == without_lead(s@.skip(from as int)),
        decreases all@.len() - from,
    {
        assert(s@.skip(from as int).skip(1) =~= s@.skip(from + 1));
        from = from + 1;
    }
    let ghost lead = s@.skip(from as int);
    assert(without_lead(s@) == lead);
    let mut end: usize = all.len();
    assert(s@.subrange(from as int, end as int) =~= lead);
    while end > from && space(all[end - 1])
        invariant
            all@ == s@,
            from <= end <= all@.len(),
            without_trail(lead) == without_trail(s@.subrange(from as int, end as int)),
        decreases end,
    {
        let ghost here = s@.subrange(from as int, end as int);
        assert(here.drop_last() =~= s@.subrange(from as int, end - 1));
        end = end - 1;
    }
    let ghost want = s@.subrange(from as int, end as int);
    assert(trimmed(s@) == want);
    let mut out: Vec<char> = Vec::new();
    let mut i: usize = from;
    while i < end
        invariant
            all@ == s@,
            from <= i <= end <= all@.len(),
            out@ == s@.subrange(from as int, i as int),
        decreases end - i,
    {
        out.push(all[i]);
        i = i + 1;
        assert(out@ =~= s@.subrange(from as int, i as int));
    }
    out
}

/// The text of some characters.
pub(crate) fn text_of(cs: &Vec<char>) -> (s: String)
    ensures
        s@ == cs@,
{
    let mut s = String::new();
    let mut i: usize = 0;
    while i < cs.len()
        invariant
            i <= cs@.len(),
            s@ == cs@.take(i as int),
        decreases cs@.len() - i,
    {
        s.push(cs[i]);
        i = i + 1;
        assert(s@ =~= cs@.take(i as int));
    }
    assert(cs@.take(i as int) =~= cs@);
    s
}

/// Whether a text holds decimal digits only, and at least one.
pub open spec fn is_number(s: Seq<char>) -> bool {
    s.len() > 0 && forall|i: int| 0 <= i < s.len() ==> 48 <= #[trigger] s[i] as int <= 57
}

proof fn lemma_number_grows(s: Seq<char>, k: int)
    requires
        forall|i: int| 0 <= i < s.len() ==> 48 <= #[trigger] s[i] as int <= 57,
        0 <= k <= s.len(),
    ensures
        0 <= number(s.take(k)) <= number(s),
    decreases s.len(),
{
    if s.len() == 0 {
        assert(s.take(k) =~= s);
    } else {
        let front = s.drop_last();
        assert forall|i: int| 0 <= i < front.len() implies 48 <= #[trigger] front[i] as int <= 57 by {
            assert(front[i] == s[i]);
        }
        lemma_number_grows(front, 0);
        assert(front.take(0) =~= Seq::empty());
        if k < s.len() {
            lemma_number_grows(front, k);
            assert(front.take(k) =~= s.take(k));
        } else {
            assert(s.take(k) =~= s);
        }
    }
}

fn digit_value(c: char) -> (r: Option<u32>)
    ensures
        match r {
            Some(d) => 48 <= c as int <= 57 && d == c as int - 48,
            None => !(48 <= c as int <= 57),
        },
{
    let n: u32 = c as u32;
    if n < 48 || n > 57 {
        None
    } else {
        Some(n - 48)
    }
}

/// The number that the characters from `from` on stand for, if they are digits
/// and the number is at most `max`.
fn parse_digits(cs: &Vec<char>, from: usize, max: u64) -> (r: Option<u64>)
    requires
        from <= cs@.len(),
    ensures
        match r {
            Some(n) => is_number(cs@.skip(from as int)) && n == number(cs@.skip(from as int)) && n
                <= max,
            None => !is_number(cs@.skip(from as int)) || number(cs@.skip(from as int)) > max,
        },
{
    let ghost s = cs@.skip(from as int);
    if from == cs.len() {
        return None;
    }
    let mut n: u128 = 0;
    let mut i: usize = from;
    assert(s.take(0) =~= Seq::empty());
    while i < cs.len()
        invariant
            from <= i <= cs@.len(),
            s == cs@.skip(from as int),
            forall|k: int| 0 <= k < i - from ==> 48 <= #[trigger] s[k] as int <= 57,
            n == number(s.take(i - from)),
            n <= max,
        decreases cs@.len() - i,
    {
        assert(s[i - from] == cs@[i as int]);
        let d: u32 = match digit_value(cs[i]) {
            Some(d) => d,
            None => {
                return None;
            },
        };
        n = n * 10 + d as u128;
        i = i + 1;
        assert(s.take(i - from).drop_last() =~= s.take(i - 1 - from));
        if n > max as u128 {
            proof {
                if is_number(s) {
                    lemma_number_grows(s, i - from);
                }
            }
            return None;
        }
    }
    assert(s.take(i - from) =~= s);
    Some(n as u64)
}

/// The number that a text with an optional plus sign stands for, if it is at most
/// `max`.
pub open spec fn unsigned_value(s: Seq<char>, max: int) -> Option<int> {
    let d = if s.len() > 0 && s[0] == '+' {
        s.skip(1)
    } else {
        s
    };
    if is_number(d) && number(d) <= max {
        Some(number(d))
    } else {
        None
    }
}

/// The number that a text with an optional sign stands for, if it is at least
/// `min` and at most `max`.
pub open spec fn signed_value(s: Seq<char>, min: int, max: int) -> Option<int> {
    if s.len() > 0 && s[0] == '-' {
        let d = s.skip(1);
        if is_number(d) && -number(d) >= min {
            Some(-number(d))
        } else {
            None
        }
    } else {
        unsigned_value(s, max)
    }
}

/// Reads an unsigned number.
pub(crate) fn parse_unsigned(cs: &Vec<char>, max: u64) -> (r: Option<u64>)
    ensures
        match r {
            Some(n) => unsigned_value(cs@, max as int) == Some(n as int) && n <= max,
            None => unsigned_value(cs@, max as int) is None,
        },
{
    if cs.len() > 0 && cs[0] == '+' {
        parse_digits(cs, 1, max)
    } else {
        assert(cs@.skip(0) =~= cs@);
        parse_digits(cs, 0, max)
    }
}

/// Reads a signed number of 32 bits.
pub(crate) fn parse_signed(cs: &Vec<char>) -> (r: Option<i32>)
    ensures
        match r {
            Some(n) => signed_value(cs@, i32::MIN as int, i32::MAX as int) == Some(n as int),
            None => signed_value(cs@, i32::MIN as int, i32::MAX as int) is None,
        },
{
    if cs.len() > 0 && cs[0] == '-' {
        match parse_digits(cs, 1, 0x8000_0000) {
            Some(n) => Some((-(n as i64)) as i32),
            None => None,
        }
    } else {
        match parse_unsigned(cs, 0x7fff_ffff) {
            Some(n) => Some(n as i32),
            None => None,
        }
    }
}

/// The digits of a number stand for its powers of ten, the last one for the ones: each
/// is what is left of the number when the places behind it are cut off. No zero leads.
pub proof fn law_digits_are_decimal_places(n: nat, i: int)
    requires
        0 <= i < decimal(n).len(),
    ensures
        decimal(n)[i] as int - 48 == (n as int / pow(10, (decimal(n).len() - 1 - i) as nat)) % 10,
        n < pow(10, decimal(n).len()),
        decimal(n).len() > 1 ==> pow(10, (decimal(n).len() - 1) as nat) <= n && decimal(n)[0]
            != '0',
    decreases n,
{
    let len = decimal(n).len();
    if n < 10 {
        assert(pow(10, 0) == 1) by {
            reveal(pow);
        }
        assert(pow(10, 1) == 10) by {
            reveal_with_fuel(pow, 2);
        }
        assert(decimal(n)[0] as int - 48 == n);
        assert(n as int / 1 == n as int && n as int % 10 == n as int);
    } else {
        let m = n / 10;
        let head = decimal(m);
        assert(len == head.len() + 1);
        law_decimal_reads_back(m);
        law_digits_are_decimal_places(m, 0);
        let k = (len - 1) as nat;
        lemma_ten_more(k);
        lemma_ten_more((k - 1) as nat);
        if i < head.len() {
            law_digits_are_decimal_places(m, i);
            let e = (head.len() - 1 - i) as nat;
            let t = pow(10, e);
            lemma_ten_more(e);
            vstd::arithmetic::div_mod::lemma_div_denominator(n as int, 10, t);
            assert((len - 1 - i) as nat == e + 1);
            assert(pow(10, (len - 1 - i) as nat) == 10 * t);
            assert(m as int == n as int / 10);
            assert(m as int / t == n as int / (10 * t));
            assert(decimal(n)[i] == head[i]);
            assert(head[i] as int - 48 == (m as int / t) % 10);
        } else {
            assert(pow(10, 0) == 1) by {
                reveal(pow);
            }
            assert(i == len - 1);
            assert(decimal(n)[i] as int - 48 == n as int % 10);
            assert(n as int / 1 == n as int);
        }
        assert(n <= 10 * m + 9 && 10 * m <= n);
        assert(pow(10, len) == 10 * pow(10, k));
        if head.len() == 1 {
            assert(pow(10, 0) == 1) by {
                reveal(pow);
            }
            assert(k == 1);
            assert(decimal(n)[0] == head[0]);
            assert(head[0] as int - 48 == m);
        } else {
            assert(pow(10, k) == 10 * pow(10, (k - 1) as nat));
            assert(decimal(n)[0] == head[0]);
        }
    }
}

proof fn lemma_ten_more(e: nat)
    ensures
        pow(10, (e + 1) as nat) == 10 * pow(10, e),
        pow(10, e) > 0,
{
    reveal(pow);
    vstd::arithmetic::power::lemma_pow_positive(10, e);
}

/// Digits are read from the first one on: each makes ten of what was read and adds itself.
pub proof fn law_number_is_read_digit_by_digit(s: Seq<char>)
    ensures
        number(s) == s.fold_left(0, |sum: int, c: char| sum * 10 + (c as int - 48)),
    decreases s.len(),
{
    if s.len() > 0 {
        law_number_is_read_digit_by_digit(s.drop_last());
    }
}

/// Numbers that are written are read: with or without a plus sign where they are not
/// negative, with a minus sign where the sign may be read, and within the bounds only.
/// Nothing else than digits behind at most one sign is read.
pub proof fn law_written_numbers_are_read(n: nat, min: int, max: int, s: Seq<char>)
    requires
        min <= 0 <= max,
    ensures
        unsigned_value(decimal(n), max) == if n <= max {
            Some(n as int)
        } else {
            None
        },
        unsigned_value(seq!['+'] + decimal(n), max) == unsigned_value(decimal(n), max),
        signed_value(decimal(n), min, max) == unsigned_value(decimal(n), max),
        signed_value(seq!['+'] + decimal(n), min, max) == unsigned_value(decimal(n), max),
        signed_value(seq!['-'] + decimal(n), min, max) == if -n >= min {
            Some(-(n as int))
        } else {
            None
        },
        s.len() == 0 ==> signed_value(s, min, max) is None && unsigned_value(s, max) is None,
        forall|i: int|
            #![trigger s[i]]
            0 <= i < s.len() && !(48 <= s[i] as int <= 57) && !(i == 0 && s[i] == '+')
                ==> unsigned_value(s, max) is None,
        forall|i: int|
            #![trigger s[i]]
            0 <= i < s.len() && !(48 <= s[i] as int <= 57) && !(i == 0 && (s[i] == '+' || s[i]
                == '-')) ==> signed_value(s, min, max) is None,
{
    law_decimal_reads_back(n);
    let d = decimal(n);
    assert(48 <= d[0] as int <= 57);
    assert((seq!['+'] + d).skip(1) =~= d);
    assert((seq!['-'] + d).skip(1) =~= d);
    assert forall|i: int|
        #![trigger s[i]]
        0 <= i < s.len() && !(48 <= s[i] as int <= 57) && !(i == 0 && s[i]
            == '+') implies unsigned_value(s, max) is None by {
        if s[0] == '+' {
            assert(s.skip(1)[i - 1] == s[i]);
        }
    }
    assert forall|i: int|
        #![trigger s[i]]
        0 <= i < s.len() && !(48 <= s[i] as int <= 57) && !(i == 0 && (s[i] == '+' || s[i]
            == '-')) implies signed_value(s, min, max) is None by {
        if s[0] == '-' {
            assert(s.skip(1)[i - 1] == s[i]);
        }
    }
}

/// What counts as white space.
pub proof fn law_white_space_is_listed(c: char)
    ensures
        is_space(c) <==> seq![
            0x9int,
            0xa,
            0xb,
            0xc,
            0xd,
            0x20,
            0x85,
            0xa0,
            0x1680,
            0x2000,
            0x2001,
            0x2002,
            0x2003,
            0x2004,
            0x2005,
            0x2006,
            0x2007,
            0x2008,
            0x2009,
            0x200a,
            0x2028,
            0x2029,
            0x202f,
            0x205f,
            0x3000,
        ].contains(c as int),
{
    let all = seq![
        0x9int,
        0xa,
        0xb,
        0xc,
        0xd,
        0x20,
        0x85,
        0xa0,
        0x1680,
        0x2000,
        0x2001,
        0x2002,
        0x2003,
        0x2004,
        0x2005,
        0x2006,
        0x2007,
        0x2008,
        0x2009,
        0x200a,
        0x2028,
        0x2029,
        0x202f,
        0x205f,
        0x3000,
    ];
    let n = c as int;
    if is_space(c) {
        let i = if n <= 0xd {
            n - 9
        } else if n == 0x20 {
            5
        } else if n == 0x85 {
            6
        } else if n == 0xa0 {
            7
        } else if n == 0x1680 {
            8
        } else if n <= 0x200a {
            n - 0x2000 + 9
        } else if n == 0x2028 {
            20
        } else if n == 0x2029 {
            21
        } else if n == 0x202f {
            22
        } else if n == 0x205f {
            23
        } else {
            24
        };
        assert(all[i] == n);
    }
}

proof fn lemma_lead(s: Seq<char>) -> (from: int)
    ensures
        0 <= from <= s.len(),
        without_lead(s) == s.skip(from),
        forall|i: int| 0 <= i < from ==> is_space(#[trigger] s[i]),
        from < s.len() ==> !is_space(s[from]),
    decreases s.len(),
{
    if s.len() > 0 && is_space(s[0]) {
        let rest = s.skip(1);
        let from = lemma_lead(rest);
        assert(rest.skip(from) =~= s.skip(from + 1));
        assert forall|i: int| 0 <= i < from + 1 implies is_space(#[trigger] s[i]) by {
            if i > 0 {
                assert(rest[i - 1] == s[i]);
            }
        }
        from + 1
    } else {
        assert(s.skip(0) =~= s);
        0
    }
}

proof fn lemma_trail(s: Seq<char>) -> (end: int)
    ensures
        0 <= end <= s.len(),
        without_trail(s) == s.take(end),
        forall|i: int| end <= i < s.len() ==> is_space(#[trigger] s[i]),
        end > 0 ==> !is_space(s[end - 1]),
    decreases s.len(),
{
    if s.len() > 0 && is_space(s.last()) {
        let front = s.drop_last();
        let end = lemma_trail(front);
        assert(front.take(end) =~= s.take(end));
        assert forall|i: int| end <= i < s.len() implies is_space(#[trigger] s[i]) by {
            if i < front.len() {
                assert(front[i] == s[i]);
            }
        }
        end
    } else {
        assert(s.take(s.len() as int) =~= s);
        s.len() as int
    }
}

/// What trimming leaves: the stretch of a text from `r.0` to `r.1`, with nothing but white
/// space before and behind it, and none at its ends.
pub proof fn law_trimming_takes_white_space_off_the_ends(s: Seq<char>) -> (r: (int, int))
    ensures
        0 <= r.0 <= r.1 <= s.len(),
        trimmed(s) == s.subrange(r.0, r.1),
        forall|i: int| 0 <= i < r.0 ==> is_space(#[trigger] s[i]),
        forall|i: int| r.1 <= i < s.len() ==> is_space(#[trigger] s[i]),
        r.0 < r.1 ==> !is_space(s[r.0]) && !is_space(s[r.1 - 1]),
{
    let from = lemma_lead(s);
    let lead = s.skip(from);
    let end = lemma_trail(lead);
    assert(lead.take(end) =~= s.subrange(from, from + end));
    assert forall|i: int| from + end <= i < s.len() implies is_space(#[trigger] s[i]) by {
        assert(lead[i - from] == s[i]);
    }
    if end > 0 {
        assert(lead[0] == s[from]);
        assert(lead[end - 1] == s[from + end - 1]);
    }
    (from, from + end)
}

} // verus!
