//! Copying to the clipboard: the tools that can, and the terminal's escape
//! sequence for when none is there.

use vstd::prelude::*;

use crate::text;
use crate::text::texts;

verus! {

/// The character for six bits.
pub open spec fn sextet_char(n: int) -> char {
    if n < 26 {
        ('A' as int + n) as char
    } else if n < 52 {
        ('a' as int + (n - 26)) as char
    } else if n < 62 {
        ('0' as int + (n - 52)) as char
    } else if n == 62 {
        '+'
    } else {
        '/'
    }
}

/// The six bits of a character, 0 for padding.
pub open spec fn sextet_of(c: char) -> int {
    if 'A' <= c <= 'Z' {
        c as int - 'A' as int
    } else if 'a' <= c <= 'z' {
        c as int - 'a' as int + 26
    } else if '0' <= c <= '9' {
        c as int - '0' as int + 52
    } else if c == '+' {
        62
    } else if c == '/' {
        63
    } else {
        0
    }
}

/// Byte `i` of `s`, 0 behind its end.
pub open spec fn byte_at(s: Seq<u8>, i: int) -> int {
    if i < s.len() {
        s[i] as int
    } else {
        0
    }
}

/// The first three bytes of `s` as one number.
pub open spec fn triple(s: Seq<u8>) -> int {
    byte_at(s, 0) * 65536 + byte_at(s, 1) * 256 + byte_at(s, 2)
}

/// The four characters for the first three bytes of `s`.
pub open spec fn quad(s: Seq<u8>) -> Seq<char> {
    let n = triple(s);
    seq![
        sextet_char(n / 262144),
        sextet_char(n / 4096 % 64),
        if s.len() > 1 {
            sextet_char(n / 64 % 64)
        } else {
            '='
        },
        if s.len() > 2 {
            sextet_char(n % 64)
        } else {
            '='
        },
    ]
}

/// `s` in Base64.
pub open spec fn base64_of(s: Seq<u8>) -> Seq<char>
    decreases s.len(),
{
    if s.len() == 0 {
        seq![]
    } else if s.len() <= 3 {
        quad(s)
    } else {
        quad(s.take(3)) + base64_of(s.skip(3))
    }
}

fn sextet(n: u32) -> (r: char)
    requires
        n < 64,
    ensures
        r == sextet_char(n as int),
{
    if n < 26 {
        (65u8 + n as u8) as char
    } else if n < 52 {
        (97u8 + (n - 26) as u8) as char
    } else if n < 62 {
        (48u8 + (n - 52) as u8) as char
    } else if n == 62 {
        '+'
    } else {
        '/'
    }
}

/// Encodes bytes in Base64, padded.
pub fn base64(bytes: &[u8]) -> (r: String)
    ensures
        r@ == base64_of(bytes@),
{
    let ghost s = bytes@;
    let mut out = String::new();
    let mut i: usize = 0;
    let total: usize = bytes.len();
    proof {
        assert(s.skip(0) =~= s);
        assert(Seq::<char>::empty() + base64_of(s) =~= base64_of(s));
    }
    while i < total
        invariant
            s == bytes@,
            total == s.len(),
            i <= total,
            base64_of(s) == out@ + base64_of(s.skip(i as int)),
        decreases total - i,
    {
        let ghost t = s.skip(i as int);
        let ghost before = out@;
        let left: usize = total - i;
        let a: u32 = bytes[i] as u32;
        let b: u32 = if left > 1 {
            bytes[i + 1] as u32
        } else {
            0
        };
        let c: u32 = if left > 2 {
            bytes[i + 2] as u32
        } else {
            0
        };
        let n: u32 = a * 65536 + b * 256 + c;
        let ghost part = if left > 3 {
            t.take(3)
        } else {
            t
        };
        proof {
            assert(n == triple(part));
        }
        out.push(sextet(n / 262144));
        out.push(sextet(n / 4096 % 64));
        out.push(
            if left > 1 {
                sextet(n / 64 % 64)
            } else {
                '='
            },
        );
        out.push(
            if left > 2 {
                sextet(n % 64)
            } else {
                '='
            },
        );
        assert(out@ =~= before + quad(part));
        if left > 3 {
            proof {
                assert(t.skip(3) =~= s.skip(i + 3));
                assert(before + (quad(part) + base64_of(t.skip(3))) =~= out@ + base64_of(
                    s.skip(i + 3),
                ));
            }
            i = i + 3;
        } else {
            proof {
                assert(s.skip(total as int) =~= seq![]);
                assert(out@ + base64_of(s.skip(total as int)) =~= out@);
            }
            i = total;
        }
    }
    proof {
        assert(s.skip(i as int) =~= seq![]);
        assert(out@ + base64_of(s.skip(i as int)) =~= out@);
    }
    out
}

/// The bytes of four characters; padding stands for bytes that are not there.
pub open spec fn bytes_of_quad(q: Seq<char>) -> Seq<u8> {
    let n = sextet_of(q[0]) * 262144 + sextet_of(q[1]) * 4096 + sextet_of(q[2]) * 64 + sextet_of(
        q[3],
    );
    let all = seq![(n / 65536) as u8, (n / 256 % 256) as u8, (n % 256) as u8];
    if q[2] == '=' {
        all.take(1)
    } else if q[3] == '=' {
        all.take(2)
    } else {
        all
    }
}

/// The bytes that Base64 stands for.
pub open spec fn bytes_of_base64(s: Seq<char>) -> Seq<u8>
    decreases s.len(),
{
    if s.len() < 4 {
        seq![]
    } else {
        bytes_of_quad(s.take(4)) + bytes_of_base64(s.skip(4))
    }
}

proof fn lemma_sextet(n: int)
    requires
        0 <= n < 64,
    ensures
        sextet_of(sextet_char(n)) == n,
        sextet_char(n) != '=',
{
}

proof fn lemma_split(a: int, b: int, c: int)
    requires
        0 <= a < 256,
        0 <= b < 256,
        0 <= c < 256,
    ensures
        ({
            let n = a * 65536 + b * 256 + c;
            &&& n / 65536 == a
            &&& n / 256 % 256 == b
            &&& n % 256 == c
        }),
{
    let n = a * 65536 + b * 256 + c;
    assert(n / 256 == a * 256 + b);
}

proof fn lemma_sextets(n: int)
    requires
        0 <= n < 16777216,
    ensures
        0 <= n / 262144 < 64,
        0 <= n / 4096 % 64 < 64,
        0 <= n / 64 % 64 < 64,
        0 <= n % 64 < 64,
        n / 262144 * 262144 + n / 4096 % 64 * 4096 + n / 64 % 64 * 64 + n % 64 == n,
        n % 256 == 0 ==> n % 64 == 0,
        n % 65536 == 0 ==> n / 64 % 64 == 0,
{
    let p = n / 64;
    let q = n / 4096;
    assert(q == p / 64);
    assert(n / 262144 == q / 64);
}

proof fn lemma_quad(s: Seq<u8>)
    requires
        1 <= s.len() <= 3,
    ensures
        bytes_of_quad(quad(s)) == s,
        quad(s).len() == 4,
{
    let a = byte_at(s, 0);
    let b = byte_at(s, 1);
    let c = byte_at(s, 2);
    let n = triple(s);
    let q = quad(s);
    lemma_split(a, b, c);
    lemma_sextets(n);
    lemma_sextet(n / 262144);
    lemma_sextet(n / 4096 % 64);
    lemma_sextet(n / 64 % 64);
    lemma_sextet(n % 64);
    assert(sextet_of('=') == 0);
    if s.len() == 1 {
        assert(n == a * 65536);
        assert(n % 65536 == 0 && n % 256 == 0);
    } else if s.len() == 2 {
        assert(n == a * 65536 + b * 256);
        assert(n % 256 == 0);
    }
    assert(sextet_of(q[2]) == n / 64 % 64);
    assert(sextet_of(q[3]) == n % 64);
    assert(bytes_of_quad(q) =~= s);
}

/// Base64 loses nothing: its bytes can be read back.
pub proof fn base64_can_be_read_back(s: Seq<u8>)
    ensures
        bytes_of_base64(base64_of(s)) == s,
    decreases s.len(),
{
    let e = base64_of(s);
    if s.len() == 0 {
        assert(bytes_of_base64(e) =~= s);
    } else if s.len() <= 3 {
        lemma_quad(s);
        assert(e.take(4) =~= quad(s));
        assert(e.skip(4) =~= seq![]);
        assert(bytes_of_base64(e.skip(4)) =~= seq![]);
        assert(bytes_of_base64(e) =~= s);
    } else {
        lemma_quad(s.take(3));
        base64_can_be_read_back(s.skip(3));
        assert(e.take(4) =~= quad(s.take(3)));
        assert(e.skip(4) =~= base64_of(s.skip(3)));
        assert(s.take(3) + s.skip(3) =~= s);
    }
}

/// Base64 has four characters for every three bytes begun.
pub proof fn base64_has_whole_quads(s: Seq<u8>)
    ensures
        base64_of(s).len() == (s.len() + 2) / 3 * 4,
    decreases s.len(),
{
    if s.len() > 3 {
        base64_has_whole_quads(s.skip(3));
    }
}

/// The escape sequence that has the terminal copy what this Base64 stands for.
pub fn copy_sequence(encoded: &str) -> (r: String)
    ensures
        r@ == "\x1b]52;c;"@ + encoded@ + "\x07"@,
{
    let mut out: String = "\x1b]52;c;".to_owned();
    text::push_text(&mut out, encoded);
    text::push_text(&mut out, "\x07");
    out
}

/// A program that copies its input, with its arguments.
#[derive(Debug, PartialEq, Eq)]
pub struct Tool {
    pub program: String,
    pub args: Vec<String>,
}

fn tool(program: &str, args: Vec<String>) -> (r: Tool)
    ensures
        r.program@ == program@,
        r.args == args,
{
    Tool { program: program.to_owned(), args }
}

/// The programs that copy to the clipboard, in the order they are tried.
pub fn tools() -> (r: Vec<Tool>)
    ensures
        r@.len() == 4,
        r@[0].program@ == "pbcopy"@ && texts(r@[0].args@) == Seq::<Seq<char>>::empty(),
        r@[1].program@ == "wl-copy"@ && texts(r@[1].args@) == Seq::<Seq<char>>::empty(),
        r@[2].program@ == "xclip"@ && texts(r@[2].args@) == seq!["-selection"@, "clipboard"@],
        r@[3].program@ == "xsel"@ && texts(r@[3].args@) == seq!["--clipboard"@, "--input"@],
{
    let none: Vec<String> = Vec::new();
    let still_none: Vec<String> = Vec::new();
    let selection: Vec<String> = vec!["-selection".to_owned(), "clipboard".to_owned()];
    let input: Vec<String> = vec!["--clipboard".to_owned(), "--input".to_owned()];
    assert(texts(none@) =~= Seq::<Seq<char>>::empty());
    assert(texts(still_none@) =~= Seq::<Seq<char>>::empty());
    assert(texts(selection@) =~= seq!["-selection"@, "clipboard"@]);
    assert(texts(input@) =~= seq!["--clipboard"@, "--input"@]);
    vec![
        tool("pbcopy", none),
        tool("wl-copy", still_none),
        tool("xclip", selection),
        tool("xsel", input),
    ]
}

/// Six bits are written in the standard alphabet: capital letters, small ones,
/// digits, plus and slash.
pub proof fn six_bits_are_written_in_the_standard_alphabet(n: int)
    requires
        0 <= n < 64,
    ensures
        sextet_char(0) == 'A' && sextet_char(25) == 'Z' && sextet_char(26) == 'a' && sextet_char(51)
            == 'z' && sextet_char(52) == '0' && sextet_char(61) == '9' && sextet_char(62) == '+'
            && sextet_char(63) == '/',
        n != 25 && n != 51 && n < 61 ==> sextet_char(n + 1) as int == sextet_char(n) as int + 1,
{
}

} // verus!
