//! Numbers as text: digits, decimal and hexadecimal.

use vstd::prelude::*;

use crate::text;

verus! {

/// The value of `c` as a digit in `base` (at most 16).
pub open spec fn digit_of(c: char, base: nat) -> Option<nat> {
    let d: nat = if '0' <= c <= '9' {
        (c as int - '0' as int) as nat
    } else if 'a' <= c <= 'f' {
        (c as int - 'a' as int + 10) as nat
    } else if 'A' <= c <= 'F' {
        (c as int - 'A' as int + 10) as nat
    } else {
        16
    };
    if d < base {
        Some(d)
    } else {
        None
    }
}

/// `s` holds digits in `base` only.
pub open spec fn all_digits(s: Seq<char>, base: nat) -> bool {
    forall|i: int| 0 <= i < s.len() ==> (#[trigger] digit_of(s[i], base)) is Some
}

/// The number that the digits of `s` denote in `base`.
pub open spec fn value_of(s: Seq<char>, base: nat) -> nat
    decreases s.len(),
{
    if s.len() == 0 {
        0
    } else {
        value_of(s.drop_last(), base) * base + digit_of(s.last(), base)->0
    }
}

/// `s` without one leading plus sign.
pub open spec fn unsigned_part(s: Seq<char>) -> Seq<char> {
    if s.len() > 0 && s[0] == '+' {
        s.skip(1)
    } else {
        s
    }
}

/// The number that `s` denotes in `base`: an optional plus sign, then at least
/// one digit and nothing else.
pub open spec fn number_of(s: Seq<char>, base: nat) -> Option<nat> {
    let d = unsigned_part(s);
    if d.len() > 0 && all_digits(d, base) {
        Some(value_of(d, base))
    } else {
        None
    }
}

/// The number that `s` denotes in `base`, where it is at most `max`.
pub open spec fn bounded(s: Seq<char>, base: nat, max: nat) -> Option<nat> {
    match number_of(s, base) {
        Some(n) => if n <= max {
            Some(n)
        } else {
            None
        },
        None => None,
    }
}

/// The port that `s` denotes in decimal.
pub open spec fn port_of(s: Seq<char>) -> Option<u16> {
    match bounded(s, 10, u16::MAX as nat) {
        Some(n) => Some(n as u16),
        None => None,
    }
}

/// The process id that `s` denotes in decimal.
pub open spec fn pid_of(s: Seq<char>) -> Option<u32> {
    match bounded(s, 10, u32::MAX as nat) {
        Some(n) => Some(n as u32),
        None => None,
    }
}

/// The digit `d` (below 16) as a character.
pub open spec fn digit_char(d: int) -> char {
    if d < 10 {
        ('0' as int + d) as char
    } else {
        ('a' as int + (d - 10)) as char
    }
}

/// `n` in decimal.
pub open spec fn decimal_of(n: nat) -> Seq<char>
    decreases n,
{
    if n < 10 {
        seq![digit_char(n as int)]
    } else {
        decimal_of(n / 10).push(digit_char((n % 10) as int))
    }
}

/// The last `width` hexadecimal digits of `n`.
pub open spec fn hex_of(n: nat, width: nat) -> Seq<char>
    decreases width,
{
    if width == 0 {
        seq![]
    } else {
        hex_of(n / 16, (width - 1) as nat).push(digit_char((n % 16) as int))
    }
}

/// `n` in hexadecimal.
pub open spec fn plain_hex_of(n: nat) -> Seq<char>
    decreases n,
{
    if n < 16 {
        seq![digit_char(n as int)]
    } else {
        plain_hex_of(n / 16).push(digit_char((n % 16) as int))
    }
}

pub proof fn lemma_value_bound(s: Seq<char>, base: nat, i: int)
    requires
        base >= 1,
        0 <= i <= s.len(),
    ensures
        value_of(s.take(i), base) <= value_of(s, base),
    decreases s.len() - i,
{
    if i < s.len() {
        let t = s.take(i + 1);
        assert(t.drop_last() == s.take(i));
        let a = value_of(s.take(i), base);
        assert(a <= a * base) by (nonlinear_arith)
            requires
                base >= 1,
                a >= 0,
        ;
        lemma_value_bound(s, base, i + 1);
    } else {
        assert(s.take(i) == s);
    }
}

/// The value of `c` as a digit in `base`.
fn digit(c: char, base: u64) -> (r: Option<u64>)
    requires
        base <= 16,
    ensures
        r is Some <==> digit_of(c, base as nat) is Some,
        r matches Some(d) ==> digit_of(c, base as nat) == Some(d as nat),
{
    let d: u64 = if '0' <= c && c <= '9' {
        (c as u64) - 48
    } else if 'a' <= c && c <= 'f' {
        (c as u64) - 97 + 10
    } else if 'A' <= c && c <= 'F' {
        (c as u64) - 65 + 10
    } else {
        16
    };
    if d < base {
        Some(d)
    } else {
        None
    }
}

/// The number that `s` denotes in `base`, where it is at most `max`.
pub fn parse_bounded(s: &str, base: u64, max: u64) -> (r: Option<u64>)
    requires
        2 <= base <= 16,
    ensures
        r is Some <==> bounded(s@, base as nat, max as nat) is Some,
        r matches Some(n) ==> bounded(s@, base as nat, max as nat) == Some(n as nat),
{
    let v = text::chars_of(s);
    let start: usize = if v.len() > 0 && v[0] == '+' {
        1
    } else {
        0
    };
    let ghost d = unsigned_part(s@);
    proof {
        assert(d == s@.skip(start as int));
    }
    if start == v.len() {
        return None;
    }
    let mut n: u64 = 0;
    let mut i: usize = start;
    while i < v.len()
        invariant
            2 <= base <= 16,
            start <= i <= v@.len(),
            v@ == s@,
            d == s@.skip(start as int),
            d == unsigned_part(s@),
            d.len() > 0,
            n <= max,
            forall|j: int| 0 <= j < i - start ==> (#[trigger] digit_of(d[j], base as nat)) is Some,
            n == value_of(d.take(i - start), base as nat),
        decreases v.len() - i,
    {
        proof {
            assert(d[i - start] == v@[i as int]);
            assert(d.take(i - start + 1).drop_last() == d.take(i - start));
            assert(d.take(i - start + 1).last() == v@[i as int]);
            lemma_value_bound(d, base as nat, i - start + 1);
        }
        match digit(v[i], base) {
            None => {
                proof {
                    assert(digit_of(d[i - start], base as nat) is None);
                }
                return None;
            },
            Some(k) => {
                proof {
                    assert(0 <= n * base <= 0xffff_ffff_ffff_ffff * 16) by (nonlinear_arith)
                        requires
                            0 <= n <= 0xffff_ffff_ffff_ffff,
                            0 <= base <= 16,
                    ;
                }
                let wide: u128 = (n as u128) * (base as u128) + (k as u128);
                if wide > max as u128 {
                    return None;
                }
                n = wide as u64;
            },
        }
        i = i + 1;
    }
    proof {
        assert(d.take(i - start) == d);
    }
    Some(n)
}

/// The port that `s` denotes.
pub fn parse_port(s: &str) -> (r: Option<u16>)
    ensures
        r == port_of(s@),
{
    match parse_bounded(s, 10, u16::MAX as u64) {
        Some(n) => Some(n as u16),
        None => None,
    }
}

/// The process id that `s` denotes.
pub fn parse_pid(s: &str) -> (r: Option<u32>)
    ensures
        r == pid_of(s@),
{
    match parse_bounded(s, 10, u32::MAX as u64) {
        Some(n) => Some(n as u32),
        None => None,
    }
}

/// The digit `d` as a character.
fn glyph_of(d: u64) -> (r: char)
    requires
        d < 16,
    ensures
        r == digit_char(d as int),
{
    if d < 10 {
        (48 + d as u8) as char
    } else {
        (97 + (d as u8 - 10)) as char
    }
}

/// `n` in decimal.
pub fn decimal(n: u64) -> (r: String)
    ensures
        r@ == decimal_of(n as nat),
    decreases n,
{
    if n < 10 {
        let mut s = String::new();
        s.push(glyph_of(n));
        proof {
            assert(s@ == seq![digit_char(n as int)]);
        }
        s
    } else {
        let mut s = decimal(n / 10);
        s.push(glyph_of(n % 10));
        s
    }
}

/// The last `width` hexadecimal digits of `n`.
pub fn hex(n: u64, width: usize) -> (r: String)
    ensures
        r@ == hex_of(n as nat, width as nat),
        r@.len() == width,
    decreases width,
{
    if width == 0 {
        String::new()
    } else {
        let mut s = hex(n / 16, width - 1);
        s.push(glyph_of(n % 16));
        s
    }
}

/// `n` in hexadecimal.
pub fn plain_hex(n: u64) -> (r: String)
    ensures
        r@ == plain_hex_of(n as nat),
    decreases n,
{
    if n < 16 {
        let mut s = String::new();
        s.push(glyph_of(n));
        proof {
            assert(s@ == seq![digit_char(n as int)]);
        }
        s
    } else {
        let mut s = plain_hex(n / 16);
        s.push(glyph_of(n % 16));
        s
    }
}

/// A number in decimal consists of digits and denotes itself.
pub proof fn decimal_denotes_itself(n: nat)
    ensures
        decimal_of(n).len() > 0,
        all_digits(decimal_of(n), 10),
        value_of(decimal_of(n), 10) == n,
        number_of(decimal_of(n), 10) == Some(n),
    decreases n,
{
    let s = decimal_of(n);
    if n < 10 {
        assert(s.drop_last() == Seq::<char>::empty());
        assert(value_of(s.drop_last(), 10) == 0);
        assert(digit_of(digit_char(n as int), 10) == Some(n));
    } else {
        decimal_denotes_itself(n / 10);
        let d = n % 10;
        assert(s.drop_last() == decimal_of(n / 10));
        assert(s.last() == digit_char(d as int));
        assert(digit_of(digit_char(d as int), 10) == Some(d));
        assert forall|i: int| 0 <= i < s.len() implies (#[trigger] digit_of(s[i], 10)) is Some by {
            if i < s.len() - 1 {
                assert(s[i] == decimal_of(n / 10)[i]);
            }
        }
    }
    assert(digit_of(s[0], 10) is Some);
    assert(s[0] != '+');
    assert(unsigned_part(s) == s);
}

/// Ten to the power of `k`.
pub open spec fn ten_to(k: nat) -> nat
    decreases k,
{
    if k == 0 {
        1
    } else {
        10 * ten_to((k - 1) as nat)
    }
}

/// A number below ten to the power of `k` has at most `k` digits.
pub proof fn lemma_decimal_len(n: nat, k: nat)
    requires
        k >= 1,
        n < ten_to(k),
    ensures
        decimal_of(n).len() <= k,
    decreases k,
{
    if n >= 10 {
        if k == 1 {
            assert(ten_to(1) == 10) by {
                reveal_with_fuel(ten_to, 2);
            }
        } else {
            lemma_decimal_len(n / 10, (k - 1) as nat);
        }
    }
}

/// A number in decimal holds digits only.
pub proof fn lemma_decimal_chars(n: nat)
    ensures
        forall|i: int| 0 <= i < decimal_of(n).len() ==> '0' <= #[trigger] decimal_of(n)[i] <= '9',
        decimal_of(n).len() > 0,
{
    decimal_denotes_itself(n);
    assert forall|i: int| 0 <= i < decimal_of(n).len() implies '0' <= #[trigger] decimal_of(n)[i]
        <= '9' by {
        assert(digit_of(decimal_of(n)[i], 10) is Some);
    }
}

/// A port is read from its decimal digits; what is larger than any port is none,
/// nor is a text that holds anything but digits.
pub proof fn ports_are_read_as_written(n: nat, s: Seq<char>, k: int)
    ensures
        n <= 65535 ==> port_of(decimal_of(n)) == Some(n as u16),
        n > 65535 ==> port_of(decimal_of(n)) is None,
        n <= 4294967295 ==> pid_of(decimal_of(n)) == Some(n as u32),
        n > 4294967295 ==> pid_of(decimal_of(n)) is None,
        0 < k < s.len() && !('0' <= s[k] <= '9') ==> port_of(s) is None && pid_of(s) is None,
        s.len() == 0 ==> port_of(s) is None && pid_of(s) is None,
{
    decimal_denotes_itself(n);
    if 0 < k < s.len() && !('0' <= s[k] <= '9') {
        let d = unsigned_part(s);
        let at = if s[0] == '+' {
            k - 1
        } else {
            k
        };
        assert(d[at] == s[k]);
        assert(digit_of(d[at], 10) is None);
    }
}

} // verus!
