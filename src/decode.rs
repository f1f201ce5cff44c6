//! Decoding of the `\xHH` escapes that the device-property tool writes into
//! property values.

use vstd::prelude::*;

verus! {

/// The value of a hexadecimal digit, if `c` is one.
pub open spec fn hex_digit_value(c: char) -> Option<nat> {
    if '0' <= c && c <= '9' {
        Some(((c as int) - ('0' as int)) as nat)
    } else if 'a' <= c && c <= 'f' {
        Some(((c as int) - ('a' as int) + 10) as nat)
    } else if 'A' <= c && c <= 'F' {
        Some(((c as int) - ('A' as int) + 10) as nat)
    } else {
        None
    }
}

/// The character that the escape `\x` `hi` `lo` stands for: the byte that the
/// two digits spell, read as a code point, or `?` when either is no hex digit.
pub open spec fn escaped_char(hi: char, lo: char) -> char {
    match (hex_digit_value(hi), hex_digit_value(lo)) {
        (Some(h), Some(l)) => ((h * 16 + l) as u32) as char,
        _ => '?',
    }
}

/// Whether an escape sequence starts at position `i` of `s`.
pub open spec fn escape_at(s: Seq<char>, i: int) -> bool {
    0 <= i && i + 4 <= s.len() && s[i] == '\\' && s[i + 1] == 'x'
}

/// Whether `s` holds any escape sequence.
pub open spec fn has_escape(s: Seq<char>) -> bool {
    exists|i: int| #[trigger] escape_at(s, i)
}

/// `s` with every escape sequence, read from left to right, replaced by the
/// character it stands for.
pub open spec fn decoded(s: Seq<char>) -> Seq<char>
    decreases s.len(),
{
    if s.len() == 0 {
        Seq::empty()
    } else if escape_at(s, 0) {
        seq![escaped_char(s[2], s[3])] + decoded(s.subrange(4, s.len() as int))
    } else {
        seq![s[0]] + decoded(s.subrange(1, s.len() as int))
    }
}

/// Relies on `str::chars` collected into a `Vec`: the characters of `s`, in order.
#[verifier::external_body]
pub(crate) fn chars_of(s: &str) -> (r: Vec<char>)
    ensures
        r@ == s@,
{
    s.chars().collect()
}

/// Relies on `String`'s `FromIterator<char>`: the string of the given characters, in order.
#[verifier::external_body]
pub(crate) fn string_of(chars: &Vec<char>) -> (r: String)
    ensures
        r@ == chars@,
{
    chars.iter().collect()
}

fn hex_digit(c: char) -> (r: Option<u8>)
    ensures
        match r {
            Some(v) => hex_digit_value(c) == Some(v as nat) && v < 16,
            None => hex_digit_value(c) is None,
        },
{
    if '0' <= c && c <= '9' {
        Some(((c as u32) - ('0' as u32)) as u8)
    } else if 'a' <= c && c <= 'f' {
        Some(((c as u32) - ('a' as u32) + 10) as u8)
    } else if 'A' <= c && c <= 'F' {
        Some(((c as u32) - ('A' as u32) + 10) as u8)
    } else {
        None
    }
}

fn escape_char(hi: char, lo: char) -> (r: char)
    ensures
        r == escaped_char(hi, lo),
{
    match (hex_digit(hi), hex_digit(lo)) {
        (Some(h), Some(l)) => {
            let v: u8 = h * 16 + l;
            v as char
        },
        _ => '?',
    }
}

/// Replaces each `\xHH` escape of `raw` by the character it stands for
/// (`hello\x20world` becomes `hello world`); an escape whose two digits are
/// not both hexadecimal becomes `?`. Text without escapes comes back as it is.
pub fn udevadm_decode(raw: &str) -> (r: String)
    ensures
        r@ == decoded(raw@),
{
    let s = chars_of(raw);
    let n = s.len();
    let mut out: Vec<char> = Vec::new();
    let mut i: usize = 0;
    assert(s@.subrange(0, n as int) =~= s@);
    assert(out@ + decoded(s@) =~= decoded(s@));
    while i < n
        invariant
            i <= n,
            n == s@.len(),
            s@ == raw@,
            out@ + decoded(s@.subrange(i as int, n as int)) == decoded(s@),
        decreases n - i,
    {
        let rest = Ghost(s@.subrange(i as int, n as int));
        if n - i >= 4 && s[i] == '\\' && s[i + 1] == 'x' {
            assert(escape_at(rest@, 0));
            assert(rest@.subrange(4, rest@.len() as int) =~= s@.subrange(i + 4, n as int));
            out.push(escape_char(s[i + 2], s[i + 3]));
            i = i + 4;
        } else {
            assert(!escape_at(rest@, 0));
            assert(rest@.subrange(1, rest@.len() as int) =~= s@.subrange(i + 1, n as int));
            out.push(s[i]);
            i = i + 1;
        }
        assert(out@ + decoded(s@.subrange(i as int, n as int)) =~= decoded(s@));
    }
    assert(s@.subrange(n as int, n as int) =~= Seq::<char>::empty());
    assert(out@ =~= out@ + decoded(s@.subrange(n as int, n as int)));
    string_of(&out)
}

/// Decoding leaves text without escape sequences unchanged.
pub proof fn lemma_decode_without_escapes(s: Seq<char>)
    requires
        !has_escape(s),
    ensures
        decoded(s) == s,
    decreases s.len(),
{
    if s.len() > 0 {
        let t = s.subrange(1, s.len() as int);
        assert(!escape_at(s, 0));
        assert forall|i: int| !escape_at(t, i) by {
            if escape_at(t, i) {
                assert(escape_at(s, i + 1));
            }
        }
        lemma_decode_without_escapes(t);
        assert(seq![s[0]] + t =~= s);
    }
}

} // verus!
