//! Text produced from raw bytes: UTF-16 entry names and GUID rendering.
use vstd::prelude::*;
use vstd::string::StringExecFns;

verus! {

/// A UTF-16 high (leading) surrogate.
pub open spec fn is_high_surrogate(u: u16) -> bool {
    0xD800 <= u < 0xDC00
}

/// A UTF-16 low (trailing) surrogate.
pub open spec fn is_low_surrogate(u: u16) -> bool {
    0xDC00 <= u < 0xE000
}

/// The scalar value a high and a low surrogate encode together.
pub open spec fn spec_pair_scalar(hi: u16, lo: u16) -> u32 {
    (0x10000 + (hi - 0xD800) * 0x400 + (lo - 0xDC00)) as u32
}

/// Lossy UTF-16 decoding: a high surrogate followed by a low one is one
/// supplementary character, any other surrogate becomes U+FFFD, and every
/// other unit is the character of the same value.
pub open spec fn spec_utf16_lossy(u: Seq<u16>) -> Seq<char>
    decreases u.len(),
{
    if u.len() == 0 {
        Seq::empty()
    } else if u.len() >= 2 && is_high_surrogate(u[0]) && is_low_surrogate(u[1]) {
        seq![spec_pair_scalar(u[0], u[1]) as char] + spec_utf16_lossy(u.skip(2))
    } else if is_high_surrogate(u[0]) || is_low_surrogate(u[0]) {
        seq!['\u{FFFD}'] + spec_utf16_lossy(u.skip(1))
    } else {
        seq![(u[0] as u32) as char] + spec_utf16_lossy(u.skip(1))
    }
}

/// Lossy decoding never gives more characters than there are code units.
pub proof fn lemma_utf16_lossy_len(u: Seq<u16>)
    ensures
        spec_utf16_lossy(u).len() <= u.len(),
    decreases u.len(),
{
    if u.len() >= 2 && is_high_surrogate(u[0]) && is_low_surrogate(u[1]) {
        lemma_utf16_lossy_len(u.skip(2));
    } else if u.len() > 0 {
        lemma_utf16_lossy_len(u.skip(1));
    }
}

/// Calls `char::from_u32`, which gives the `char` of a Unicode scalar value
/// and `None` for any other number (a surrogate code point, or one past
/// U+10FFFF).
#[verifier::external_body]
fn char_from_u32(x: u32) -> (r: Option<char>)
    ensures
        r is Some <==> (x <= 0x10FFFF && !(0xD800 <= x < 0xE000)),
        r is Some ==> r == Some(x as char),
{
    char::from_u32(x)
}

/// Collects `chars` into a `String` through `String`'s `FromIterator<char>`,
/// which appends the characters in order.
#[verifier::external_body]
fn string_from_chars(chars: Vec<char>) -> (s: String)
    ensures
        s@ == chars@,
{
    String::from_iter(chars)
}

/// Decodes UTF-16 code units lossily: surrogate pairs become supplementary
/// characters and every unpaired surrogate becomes U+FFFD.
pub fn utf16_lossy(units: &[u16]) -> (s: String)
    ensures
        s@ == spec_utf16_lossy(units@),
{
    let n = units.len();
    let mut out: Vec<char> = Vec::new();
    let mut i: usize = 0;
    assert(units@.skip(0) =~= units@);
    assert(out@ + spec_utf16_lossy(units@) =~= spec_utf16_lossy(units@));
    while i < n
        invariant
            i <= n,
            n == units@.len(),
            out@ + spec_utf16_lossy(units@.skip(i as int)) == spec_utf16_lossy(units@),
        decreases n - i,
    {
        let ghost rest = units@.skip(i as int);
        let ghost before = out@;
        let u = units[i];
        if 0xD800 <= u && u < 0xDC00 && i + 1 < n && 0xDC00 <= units[i + 1] && units[i + 1] < 0xE000 {
            let lo = units[i + 1];
            let x: u32 = 0x10000 + (u as u32 - 0xD800) * 0x400 + (lo as u32 - 0xDC00);
            assert(rest[0] == u && rest[1] == lo);
            assert(x == spec_pair_scalar(u, lo));
            assert(rest.skip(2) =~= units@.skip(i + 2));
            let c = char_from_u32(x);
            if let Some(c) = c {
                out.push(c);
            }
            assert(out@ + spec_utf16_lossy(units@.skip(i + 2)) =~= before + spec_utf16_lossy(rest));
            i = i + 2;
        } else if 0xD800 <= u && u < 0xE000 {
            assert(rest[0] == u);
            assert(rest.skip(1) =~= units@.skip(i + 1));
            out.push('\u{FFFD}');
            assert(out@ + spec_utf16_lossy(units@.skip(i + 1)) =~= before + spec_utf16_lossy(rest));
            i = i + 1;
        } else {
            assert(rest[0] == u);
            assert(rest.skip(1) =~= units@.skip(i + 1));
            let c = char_from_u32(u as u32);
            if let Some(c) = c {
                out.push(c);
            }
            assert(out@ + spec_utf16_lossy(units@.skip(i + 1)) =~= before + spec_utf16_lossy(rest));
            i = i + 1;
        }
    }
    assert(units@.skip(n as int) =~= Seq::<u16>::empty());
    assert(out@ =~= spec_utf16_lossy(units@));
    string_from_chars(out)
}

/// The lower-case hexadecimal digit of a nibble.
pub open spec fn spec_hex_digit(n: int) -> char {
    if n < 10 {
        (48 + n) as char
    } else {
        (87 + n) as char
    }
}

/// The two lower-case hexadecimal digits of a byte.
pub open spec fn spec_hex_byte(b: u8) -> Seq<char> {
    seq![spec_hex_digit(b as int / 16), spec_hex_digit(b as int % 16)]
}

/// The `[MS-DTYP]` text of a 16-byte GUID: the first three groups are
/// little-endian numbers, the last two are bytes in order
/// (`xxxxxxxx-xxxx-xxxx-xxxx-xxxxxxxxxxxx`, lower-case hexadecimal).
pub open spec fn spec_guid_text(c: Seq<u8>) -> Seq<char> {
    spec_hex_byte(c[3]) + spec_hex_byte(c[2]) + spec_hex_byte(c[1]) + spec_hex_byte(c[0]) + seq!['-']
        + spec_hex_byte(c[5]) + spec_hex_byte(c[4]) + seq!['-'] + spec_hex_byte(c[7])
        + spec_hex_byte(c[6]) + seq!['-'] + spec_hex_byte(c[8]) + spec_hex_byte(c[9]) + seq!['-']
        + spec_hex_byte(c[10]) + spec_hex_byte(c[11]) + spec_hex_byte(c[12]) + spec_hex_byte(c[13])
        + spec_hex_byte(c[14]) + spec_hex_byte(c[15])
}

/// The digit of a nibble as a one-character string.
fn hex_digit(n: u8) -> (s: &'static str)
    requires
        n < 16,
    ensures
        s@ == seq![spec_hex_digit(n as int)],
{
    match n {
        0 => {
            proof {
                reveal_strlit("0");
            }
            "0"
        },
        1 => {
            proof {
                reveal_strlit("1");
            }
            "1"
        },
        2 => {
            proof {
                reveal_strlit("2");
            }
            "2"
        },
        3 => {
            proof {
                reveal_strlit("3");
            }
            "3"
        },
        4 => {
            proof {
                reveal_strlit("4");
            }
            "4"
        },
        5 => {
            proof {
                reveal_strlit("5");
            }
            "5"
        },
        6 => {
            proof {
                reveal_strlit("6");
            }
            "6"
        },
        7 => {
            proof {
                reveal_strlit("7");
            }
            "7"
        },
        8 => {
            proof {
                reveal_strlit("8");
            }
            "8"
        },
        9 => {
            proof {
                reveal_strlit("9");
            }
            "9"
        },
        10 => {
            proof {
                reveal_strlit("a");
            }
            "a"
        },
        11 => {
            proof {
                reveal_strlit("b");
            }
            "b"
        },
        12 => {
            proof {
                reveal_strlit("c");
            }
            "c"
        },
        13 => {
            proof {
                reveal_strlit("d");
            }
            "d"
        },
        14 => {
            proof {
                reveal_strlit("e");
            }
            "e"
        },
        _ => {
            proof {
                reveal_strlit("f");
            }
            "f"
        },
    }
}

/// Appends the two hexadecimal digits of `b` to `out`.
fn push_hex_byte(out: &mut String, b: u8)
    ensures
        final(out)@ == old(out)@ + spec_hex_byte(b),
{
    out.append(hex_digit(b / 16));
    out.append(hex_digit(b % 16));
    assert(out@ =~= old(out)@ + spec_hex_byte(b));
}

/// Appends a dash to `out`.
fn push_dash(out: &mut String)
    ensures
        final(out)@ == old(out)@ + seq!['-'],
{
    proof {
        reveal_strlit("-");
    }
    out.append("-");
}

/// Renders a CLSID as `[MS-DTYP]` GUID text.
pub fn format_clsid(c: &[u8; 16]) -> (s: String)
    ensures
        s@ == spec_guid_text(c@),
{
    let mut s = String::new();
    push_hex_byte(&mut s, c[3]);
    push_hex_byte(&mut s, c[2]);
    push_hex_byte(&mut s, c[1]);
    push_hex_byte(&mut s, c[0]);
    push_dash(&mut s);
    push_hex_byte(&mut s, c[5]);
    push_hex_byte(&mut s, c[4]);
    push_dash(&mut s);
    push_hex_byte(&mut s, c[7]);
    push_hex_byte(&mut s, c[6]);
    push_dash(&mut s);
    push_hex_byte(&mut s, c[8]);
    push_hex_byte(&mut s, c[9]);
    push_dash(&mut s);
    push_hex_byte(&mut s, c[10]);
    push_hex_byte(&mut s, c[11]);
    push_hex_byte(&mut s, c[12]);
    push_hex_byte(&mut s, c[13]);
    push_hex_byte(&mut s, c[14]);
    push_hex_byte(&mut s, c[15]);
    assert(s@ =~= spec_guid_text(c@));
    s
}

/// The decimal digits of `n`, most significant first, without leading zeros.
pub open spec fn spec_decimal(n: nat) -> Seq<char>
    decreases n,
{
    if n < 10 {
        seq![spec_hex_digit(n as int)]
    } else {
        spec_decimal(n / 10) + seq![spec_hex_digit((n % 10) as int)]
    }
}

/// The last `width` lower-case hexadecimal digits of `n`, most significant
/// first, zero-padded.
pub open spec fn spec_hex_fixed(n: nat, width: nat) -> Seq<char>
    decreases width,
{
    if width == 0 {
        Seq::empty()
    } else {
        spec_hex_fixed(n / 16, (width - 1) as nat) + seq![spec_hex_digit((n % 16) as int)]
    }
}

/// Renders `n` in decimal.
pub fn decimal_text(n: u64) -> (s: String)
    ensures
        s@ == spec_decimal(n as nat),
    decreases n,
{
    if n < 10 {
        String::from_str(hex_digit(n as u8))
    } else {
        let mut s = decimal_text(n / 10);
        s.append(hex_digit((n % 10) as u8));
        s
    }
}

/// Renders the last `width` hexadecimal digits of `n`, zero-padded.
fn hex_fixed(n: u64, width: u8) -> (s: String)
    ensures
        s@ == spec_hex_fixed(n as nat, width as nat),
    decreases width,
{
    if width == 0 {
        String::new()
    } else {
        let mut s = hex_fixed(n / 16, width - 1);
        s.append(hex_digit((n % 16) as u8));
        s
    }
}

/// Renders `n` as `0x` followed by `width` lower-case hexadecimal digits.
pub fn hex_text(n: u64, width: u8) -> (s: String)
    ensures
        s@ == "0x"@ + spec_hex_fixed(n as nat, width as nat),
{
    let mut s = String::from_str("0x");
    let digits = hex_fixed(n, width);
    s.append(digits.as_str());
    s
}

} // verus!
