use crate::fraction::{
    lemma_reduced_pair, normalized, reduced_pair, storable, Fraction, FractionError,
};
use vstd::prelude::*;
use vstd::std_specs::cmp::PartialEqSpec;
use vstd::string::*;

verus! {

/// The value of a decimal digit character.
pub open spec fn char_digit(c: char) -> Option<nat> {
    if c == '0' {
        Some(0)
    } else if c == '1' {
        Some(1)
    } else if c == '2' {
        Some(2)
    } else if c == '3' {
        Some(3)
    } else if c == '4' {
        Some(4)
    } else if c == '5' {
        Some(5)
    } else if c == '6' {
        Some(6)
    } else if c == '7' {
        Some(7)
    } else if c == '8' {
        Some(8)
    } else if c == '9' {
        Some(9)
    } else {
        None
    }
}

/// The character of a decimal digit.
pub open spec fn digit_char(d: nat) -> char {
    if d == 0 {
        '0'
    } else if d == 1 {
        '1'
    } else if d == 2 {
        '2'
    } else if d == 3 {
        '3'
    } else if d == 4 {
        '4'
    } else if d == 5 {
        '5'
    } else if d == 6 {
        '6'
    } else if d == 7 {
        '7'
    } else if d == 8 {
        '8'
    } else {
        '9'
    }
}

/// Every character is a decimal digit.
pub open spec fn all_digits(t: Seq<char>) -> bool {
    forall|k: int| 0 <= k < t.len() ==> #[trigger] char_digit(t[k]) is Some
}

/// The value of a string of decimal digits, most significant first.
pub open spec fn digits_value(t: Seq<char>) -> nat
    decreases t.len(),
{
    if t.len() == 0 {
        0
    } else {
        digits_value(t.drop_last()) * 10 + match char_digit(t.last()) {
            Some(v) => v,
            None => 0,
        }
    }
}

/// The decimal digits of a natural number, without leading zeros.
pub open spec fn digits_of(n: nat) -> Seq<char>
    decreases n,
{
    if n < 10 {
        seq![digit_char(n)]
    } else {
        digits_of(n / 10).push(digit_char(n % 10))
    }
}

/// The canonical text of an integer: a minus sign when negative, then its digits.
pub open spec fn int_text(i: int) -> Seq<char> {
    if i < 0 {
        seq!['-'] + digits_of((-i) as nat)
    } else {
        digits_of(i as nat)
    }
}

/// The text of a fraction's reduced pair: `<numerator>/<denominator>`.
pub open spec fn fraction_text(p: (int, int)) -> Seq<char> {
    int_text(p.0) + seq!['/'] + int_text(p.1)
}

/// The text after an optional leading sign.
pub open spec fn unsigned_part(t: Seq<char>) -> Seq<char> {
    if t.len() > 0 && (t[0] == '+' || t[0] == '-') {
        t.skip(1)
    } else {
        t
    }
}

/// The value of an integer text.
pub open spec fn int_value(t: Seq<char>) -> int {
    if t.len() > 0 && t[0] == '-' {
        -digits_value(unsigned_part(t))
    } else {
        digits_value(unsigned_part(t)) as int
    }
}

/// An integer text that fits in an `i64`: an optional sign, then one or more digits.
pub open spec fn int_text_ok(t: Seq<char>) -> bool {
    &&& unsigned_part(t).len() > 0
    &&& all_digits(unsigned_part(t))
    &&& i64::MIN <= int_value(t) <= i64::MAX
}

/// `s` is two integer texts joined by a `/` at index `i`.
pub open spec fn fraction_text_at(s: Seq<char>, i: int) -> bool {
    &&& 0 <= i < s.len()
    &&& s[i] == '/'
    &&& int_text_ok(s.take(i))
    &&& int_text_ok(s.skip(i + 1))
}

/// `s` is two integer texts joined by a single `/`.
pub open spec fn fraction_text_ok(s: Seq<char>) -> bool {
    exists|i: int| fraction_text_at(s, i)
}

/// The two integers that a well-formed fraction text holds.
pub open spec fn text_pair(s: Seq<char>) -> (int, int) {
    let i = choose|i: int| fraction_text_at(s, i);
    (int_value(s.take(i)), int_value(s.skip(i + 1)))
}

/// What parsing a text gives: the stored pair, or the error.
pub open spec fn parse_text(s: Seq<char>) -> Result<(int, int), FractionError> {
    if !fraction_text_ok(s) {
        Err(FractionError::MalformedText)
    } else if text_pair(s).1 == 0 {
        Err(FractionError::ZeroDenominator)
    } else if text_pair(s).0 == i64::MIN || text_pair(s).1 == i64::MIN {
        Err(FractionError::Overflow)
    } else {
        Ok(normalized(text_pair(s).0, text_pair(s).1))
    }
}

/// An integer text holds no `/`.
proof fn lemma_no_slash(t: Seq<char>, k: int)
    requires
        int_text_ok(t),
        0 <= k < t.len(),
    ensures
        t[k] != '/',
{
    let u = unsigned_part(t);
    if t[0] == '+' || t[0] == '-' {
        if k > 0 {
            assert(u[k - 1] == t[k]);
            assert(char_digit(u[k - 1]) is Some);
        }
    } else {
        assert(char_digit(u[k]) is Some);
    }
}

/// A well-formed fraction text has exactly one place for its `/`.
proof fn lemma_slash_unique(s: Seq<char>, i: int, j: int)
    requires
        fraction_text_at(s, i),
        fraction_text_at(s, j),
    ensures
        i == j,
{
    if i < j {
        lemma_no_slash(s.take(j), i);
    } else if j < i {
        lemma_no_slash(s.take(i), j);
    }
}

/// The digits of `n` are digits, spell `n`, and start with a digit.
proof fn lemma_digits_of(n: nat)
    ensures
        digits_of(n).len() > 0,
        all_digits(digits_of(n)),
        digits_value(digits_of(n)) == n,
        char_digit(digits_of(n)[0]) is Some,
    decreases n,
{
    let t = digits_of(n);
    assert(char_digit(digit_char(n % 10)) == Some(n % 10));
    if n < 10 {
        assert(t.drop_last() =~= Seq::<char>::empty());
        assert(digits_value(t) == digits_value(t.drop_last()) * 10 + n);
    } else {
        lemma_digits_of(n / 10);
        assert(t.drop_last() =~= digits_of(n / 10));
        assert(digits_value(t) == digits_value(t.drop_last()) * 10 + n % 10);
        assert forall|k: int| 0 <= k < t.len() implies #[trigger] char_digit(t[k]) is Some by {
            if k < t.len() - 1 {
                assert(t[k] == digits_of(n / 10)[k]);
            }
        }
    }
}

/// The canonical text of an `i64` value parses back to it.
proof fn lemma_int_text(i: int)
    requires
        i64::MIN <= i <= i64::MAX,
    ensures
        int_text_ok(int_text(i)),
        int_value(int_text(i)) == i,
        int_text(i).len() > 0,
{
    let t = int_text(i);
    if i < 0 {
        lemma_digits_of((-i) as nat);
        assert(t.skip(1) =~= digits_of((-i) as nat));
    } else {
        lemma_digits_of(i as nat);
    }
}

/// Parsing the canonical text of a fraction gives its reduced pair, and a fraction that
/// stores that pair equals the original.
pub proof fn law_parse_format_round_trip(a: Fraction, b: Fraction)
    requires
        storable(a.pair()),
    ensures
        parse_text(fraction_text(a.reduced())) == Ok::<(int, int), FractionError>(a.reduced()),
        b.pair() == a.reduced() ==> b.eq_spec(&a),
{
    lemma_reduced_pair(a.pair());
    let p = a.reduced();
    let s = fraction_text(p);
    let i = int_text(p.0).len() as int;
    lemma_int_text(p.0);
    lemma_int_text(p.1);
    assert(s.take(i) =~= int_text(p.0));
    assert(s.skip(i + 1) =~= int_text(p.1));
    assert(fraction_text_at(s, i));
    let j = choose|j: int| fraction_text_at(s, j);
    lemma_slash_unique(s, i, j);
}

/// The value of a decimal digit character.
fn digit_of(c: char) -> (r: Option<u8>)
    ensures
        r is Some <==> char_digit(c) is Some,
        r matches Some(v) ==> char_digit(c) == Some(v as nat),
{
    match c {
        '0' => Some(0),
        '1' => Some(1),
        '2' => Some(2),
        '3' => Some(3),
        '4' => Some(4),
        '5' => Some(5),
        '6' => Some(6),
        '7' => Some(7),
        '8' => Some(8),
        '9' => Some(9),
        _ => None,
    }
}

/// The one-character text of a decimal digit.
fn digit_str(d: u64) -> (r: &'static str)
    requires
        d < 10,
    ensures
        r@ == seq![digit_char(d as nat)],
{
    proof {
        reveal_strlit("0");
        reveal_strlit("1");
        reveal_strlit("2");
        reveal_strlit("3");
        reveal_strlit("4");
        reveal_strlit("5");
        reveal_strlit("6");
        reveal_strlit("7");
        reveal_strlit("8");
        reveal_strlit("9");
    }
    if d == 0 {
        "0"
    } else if d == 1 {
        "1"
    } else if d == 2 {
        "2"
    } else if d == 3 {
        "3"
    } else if d == 4 {
        "4"
    } else if d == 5 {
        "5"
    } else if d == 6 {
        "6"
    } else if d == 7 {
        "7"
    } else if d == 8 {
        "8"
    } else {
        "9"
    }
}

/// Appends the decimal digits of `n`.
fn push_digits(out: &mut String, n: u64)
    ensures
        final(out)@ == old(out)@ + digits_of(n as nat),
    decreases n,
{
    if n >= 10 {
        push_digits(out, n / 10);
    }
    out.append(digit_str(n % 10));
    proof {
        if n >= 10 {
            assert(digits_of(n as nat) == digits_of((n / 10) as nat).push(digit_char((n % 10) as nat)));
        }
    }
    assert(final(out)@ =~= old(out)@ + digits_of(n as nat));
}

/// Appends the canonical text of `v`.
fn push_int(out: &mut String, v: i64)
    requires
        v != i64::MIN,
    ensures
        final(out)@ == old(out)@ + int_text(v as int),
{
    if v < 0 {
        proof {
            reveal_strlit("-");
        }
        out.append("-");
        push_digits(out, (-v) as u64);
        assert(final(out)@ =~= old(out)@ + int_text(v as int));
    } else {
        push_digits(out, v as u64);
    }
}

/// The value after which an accumulated digit string can no longer fit an `i64`.
pub const DIGITS_CAP: u128 = 0x8000_0000_0000_0001;

/// `v`, or the cap when `v` reaches it.
pub open spec fn capped(v: nat) -> nat {
    if v < DIGITS_CAP {
        v
    } else {
        DIGITS_CAP as nat
    }
}

/// Parses the characters of `s` in `lo..hi` as an `i64`, the way `i64::from_str` reads
/// them: an optional sign, then one or more digits.
fn parse_int(s: &str, lo: usize, hi: usize) -> (r: Option<i64>)
    requires
        lo <= hi <= s@.len(),
    ensures
        r is Some <==> int_text_ok(s@.subrange(lo as int, hi as int)),
        r matches Some(v) ==> v == int_value(s@.subrange(lo as int, hi as int)),
{
    let ghost t = s@.subrange(lo as int, hi as int);
    if lo == hi {
        return None;
    }
    let c0 = s.get_char(lo);
    let negative = c0 == '-';
    let start: usize = if c0 == '+' || c0 == '-' {
        lo + 1
    } else {
        lo
    };
    let ghost u = s@.subrange(start as int, hi as int);
    assert(unsigned_part(t) =~= u);
    if start == hi {
        return None;
    }
    let mut acc: u128 = 0;
    let mut k: usize = start;
    while k < hi
        invariant
            start <= k <= hi <= s@.len(),
            u == s@.subrange(start as int, hi as int),
            t == s@.subrange(lo as int, hi as int),
            unsigned_part(t) == u,
            acc == capped(digits_value(s@.subrange(start as int, k as int))),
            all_digits(s@.subrange(start as int, k as int)),
        decreases hi - k,
    {
        let c = s.get_char(k);
        let ghost before = s@.subrange(start as int, k as int);
        let ghost after = s@.subrange(start as int, k + 1);
        assert(after.drop_last() =~= before);
        match digit_of(c) {
            None => {
                assert(u[k - start] == c);
                assert(!(char_digit(u[k - start]) is Some));
                assert(unsigned_part(t) == u);
                assert(!all_digits(unsigned_part(t)));
                return None;
            },
            Some(dv) => {
                acc = if acc >= DIGITS_CAP {
                    DIGITS_CAP
                } else {
                    let next = acc * 10 + dv as u128;
                    if next >= DIGITS_CAP {
                        DIGITS_CAP
                    } else {
                        next
                    }
                };
                assert forall|j: int| 0 <= j < after.len() implies #[trigger] char_digit(after[j]) is Some by {
                    if j < before.len() {
                        assert(after[j] == before[j]);
                    }
                }
            },
        }
        k = k + 1;
    }
    assert(s@.subrange(start as int, k as int) =~= u);
    if negative {
        if acc > 0x8000_0000_0000_0000 {
            None
        } else {
            Some((0i128 - acc as i128) as i64)
        }
    } else {
        if acc > 0x7fff_ffff_ffff_ffff {
            None
        } else {
            Some(acc as i64)
        }
    }
}

impl Fraction {
    /// Parses the text `<int>/<int>`: two integers, each with an optional sign, joined by
    /// a single `/`.
    pub fn from_str(s: &str) -> (r: Result<Fraction, FractionError>)
        ensures
            r matches Ok(f) ==> parse_text(s@) == Ok::<(int, int), FractionError>(f.pair()),
            r matches Err(e) ==> parse_text(s@) == Err::<(int, int), FractionError>(e),
    {
        let len = s.unicode_len();
        let mut i: usize = 0;
        while i < len
            invariant
                len == s@.len(),
                i <= len,
                forall|j: int| 0 <= j < i ==> s@[j] != '/',
            ensures
                i <= len,
                forall|j: int| 0 <= j < i ==> s@[j] != '/',
                i < len ==> s@[i as int] == '/',
            decreases len - i,
        {
            if s.get_char(i) == '/' {
                break;
            }
            i = i + 1;
        }
        if i == len {
            assert(!fraction_text_ok(s@));
            return Err(FractionError::MalformedText);
        }
        let numerator = parse_int(s, 0, i);
        let denominator = parse_int(s, i + 1, len);
        proof {
            assert(s@.subrange(0, i as int) =~= s@.take(i as int));
            assert(s@.subrange(i + 1, len as int) =~= s@.skip(i + 1));
        }
        match (numerator, denominator) {
            (Some(n), Some(d)) => {
                proof {
                    assert(fraction_text_at(s@, i as int));
                    let j = choose|j: int| fraction_text_at(s@, j);
                    lemma_slash_unique(s@, i as int, j);
                }
                Fraction::try_new(n, d)
            },
            _ => {
                proof {
                    assert forall|j: int| !fraction_text_at(s@, j) by {
                        if 0 <= j < s@.len() && s@[j] == '/' && int_text_ok(s@.take(j)) && j > i {
                            lemma_no_slash(s@.take(j), i as int);
                        }
                    }
                }
                Err(FractionError::MalformedText)
            },
        }
    }

    /// The canonical text: the reduced pair as `<numerator>/<denominator>`.
    pub fn to_string(&self) -> (r: String)
        ensures
            r@ == fraction_text(self.reduced()),
    {
        let t = self.reduce();
        let mut out = String::new();
        push_int(&mut out, t.numerator());
        proof {
            reveal_strlit("/");
        }
        out.append("/");
        push_int(&mut out, t.denominator());
        assert(out@ =~= fraction_text(self.reduced()));
        out
    }
}

} // verus!
