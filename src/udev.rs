//! Reading a device's identity out of the property listing that the
//! device-property tool prints for it, one `KEY='value'` line per property.

use vstd::prelude::*;
use crate::decode::{chars_of, decoded, string_of, udevadm_decode};
use crate::tty::{opt_view, PresentTty, PresentView, Tty, TtyView};

verus! {

/// Whether `c` is white space in Unicode's sense: what `\s` of a regular
/// expression matches.
pub open spec fn is_space(c: char) -> bool {
    ('\t' <= c && c <= '\r') || c == ' ' || c == '\u{85}' || c == '\u{A0}' || c == '\u{1680}' || (
    '\u{2000}' <= c && c <= '\u{200A}') || c == '\u{2028}' || c == '\u{2029}' || c == '\u{202F}'
        || c == '\u{205F}' || c == '\u{3000}'
}

/// Whether the pattern `(\S+)='(\S+)'` matches `line` at position `start`,
/// with a key of `key_len` characters and a value of `value_len`.
pub open spec fn match_at(line: Seq<char>, start: int, key_len: int, value_len: int) -> bool {
    let eq = start + key_len;
    let value_start = eq + 2;
    let close = value_start + value_len;
    &&& 0 <= start && 1 <= key_len && 1 <= value_len && close < line.len()
    &&& forall|i: int| start <= i < eq ==> !is_space(#[trigger] line[i])
    &&& line[eq] == '=' && line[eq + 1] == '\''
    &&& forall|i: int| value_start <= i < close ==> !is_space(#[trigger] line[i])
    &&& line[close] == '\''
}

/// The longest value length, at most `v`, of a match at `start` whose key
/// has `k` characters; 0 where there is none.
pub open spec fn longest_value(line: Seq<char>, start: int, k: int, v: int) -> int
    decreases v,
{
    if v < 1 {
        0
    } else if match_at(line, start, k, v) {
        v
    } else {
        longest_value(line, start, k, v - 1)
    }
}

/// The longest key length, at most `k`, of a match at `start`; 0 where there
/// is none.
pub open spec fn longest_key(line: Seq<char>, start: int, k: int) -> int
    decreases k,
{
    if k < 1 {
        0
    } else if longest_value(line, start, k, line.len() as int) > 0 {
        k
    } else {
        longest_key(line, start, k - 1)
    }
}

/// The leftmost position, at or after `start`, where a match begins;
/// `line.len()` where there is none.
pub open spec fn leftmost_match(line: Seq<char>, start: int) -> int
    decreases line.len() - start,
{
    if start >= line.len() {
        line.len() as int
    } else if longest_key(line, start, line.len() as int) > 0 {
        start
    } else {
        leftmost_match(line, start + 1)
    }
}

/// The property that `line` states: the key and the value of the first match
/// of `(\S+)='(\S+)'` in it, found as a regular expression search finds it
/// (leftmost start, then the longest key, then the longest value); `None`
/// where the pattern occurs nowhere in the line.
pub open spec fn line_property(line: Seq<char>) -> Option<(Seq<char>, Seq<char>)> {
    let s = leftmost_match(line, 0);
    if s < line.len() {
        let k = longest_key(line, s, line.len() as int);
        let v = longest_value(line, s, k, line.len() as int);
        Some((line.subrange(s, s + k), line.subrange(s + k + 2, s + k + 2 + v)))
    } else {
        None
    }
}

/// The raw value of property `key` in a listing: that of the last line that
/// states it.
pub open spec fn property(lines: Seq<String>, key: Seq<char>) -> Option<Seq<char>>
    decreases lines.len(),
{
    if lines.len() == 0 {
        None
    } else {
        match line_property(lines.last()@) {
            Some((k, v)) if k == key => Some(v),
            _ => property(lines.drop_last(), key),
        }
    }
}

/// A property's value with its escapes decoded.
pub open spec fn decoded_property(lines: Seq<String>, key: Seq<char>) -> Option<Seq<char>> {
    match property(lines, key) {
        Some(v) => Some(decoded(v)),
        None => None,
    }
}

/// The present device that a listing describes: only a USB device with a
/// device node is one, its identity read from the vendor, model and short
/// serial properties.
pub open spec fn usb_info(lines: Seq<String>) -> Option<PresentView> {
    if property(lines, "ID_BUS"@) == Some("usb"@) && property(lines, "DEVNAME"@) is Some {
        let tty: TtyView = (
            decoded_property(lines, "ID_VENDOR_ENC"@),
            decoded_property(lines, "ID_MODEL_ENC"@),
            decoded_property(lines, "ID_SERIAL_SHORT"@),
        );
        Some((tty, decoded(property(lines, "DEVNAME"@)->0)))
    } else {
        None
    }
}

/// The present devices that a sequence of listings describes, in order.
pub open spec fn enumerated(listings: Seq<Vec<String>>) -> Seq<PresentView>
    decreases listings.len(),
{
    if listings.len() == 0 {
        Seq::empty()
    } else {
        let rest = enumerated(listings.drop_last());
        match usb_info(listings.last()@) {
            Some(p) => rest.push(p),
            None => rest,
        }
    }
}

/// The view of an optional present device.
pub open spec fn opt_present_view(p: Option<PresentTty>) -> Option<PresentView> {
    match p {
        Some(d) => Some(d@),
        None => None,
    }
}

fn copy_range(s: &Vec<char>, from: usize, to: usize) -> (r: Vec<char>)
    requires
        from <= to <= s@.len(),
    ensures
        r@ == s@.subrange(from as int, to as int),
{
    let mut out: Vec<char> = Vec::new();
    let mut i = from;
    while i < to
        invariant
            from <= i <= to <= s@.len(),
            out@ == s@.subrange(from as int, i as int),
        decreases to - i,
    {
        out.push(s[i]);
        i = i + 1;
        assert(out@ =~= s@.subrange(from as int, i as int));
    }
    out
}

fn is_space_char(c: char) -> (r: bool)
    ensures
        r == is_space(c),
{
    ('\t' <= c && c <= '\r') || c == ' ' || c == '\u{85}' || c == '\u{A0}' || c == '\u{1680}' || (
    '\u{2000}' <= c && c <= '\u{200A}') || c == '\u{2028}' || c == '\u{2029}' || c == '\u{202F}'
        || c == '\u{205F}' || c == '\u{3000}'
}

fn no_space_in(s: &Vec<char>, from: usize, to: usize) -> (r: bool)
    requires
        from <= to <= s@.len(),
    ensures
        r == forall|j: int| from <= j < to ==> !is_space(#[trigger] s@[j]),
{
    let mut i = from;
    while i < to
        invariant
            from <= i <= to <= s@.len(),
            forall|j: int| from <= j < i ==> !is_space(#[trigger] s@[j]),
        decreases to - i,
    {
        if is_space_char(s[i]) {
            return false;
        }
        i = i + 1;
    }
    true
}

fn match_here(s: &Vec<char>, start: usize, k: usize, v: usize) -> (r: bool)
    ensures
        r == match_at(s@, start as int, k as int, v as int),
{
    let n = s.len();
    if k < 1 || v < 1 || start >= n || k > n - start || v > n - start - k || n - start - k - v < 3 {
        return false;
    }
    let eq = start + k;
    let value_start = eq + 2;
    let close = value_start + v;
    s[eq] == '=' && s[eq + 1] == '\'' && s[close] == '\'' && no_space_in(s, start, eq)
        && no_space_in(s, value_start, close)
}

fn find_longest_value(s: &Vec<char>, start: usize, k: usize) -> (r: usize)
    ensures
        r as int == longest_value(s@, start as int, k as int, s@.len() as int),
        r > 0 ==> match_at(s@, start as int, k as int, r as int),
{
    let mut v = s.len();
    while v >= 1
        invariant
            v <= s@.len(),
            longest_value(s@, start as int, k as int, v as int) == longest_value(
                s@,
                start as int,
                k as int,
                s@.len() as int,
            ),
        decreases v,
    {
        if match_here(s, start, k, v) {
            return v;
        }
        v = v - 1;
    }
    0
}

fn find_longest_key(s: &Vec<char>, start: usize) -> (r: usize)
    ensures
        r as int == longest_key(s@, start as int, s@.len() as int),
        r > 0 ==> longest_value(s@, start as int, r as int, s@.len() as int) > 0,
{
    let mut k = s.len();
    while k >= 1
        invariant
            k <= s@.len(),
            longest_key(s@, start as int, k as int) == longest_key(
                s@,
                start as int,
                s@.len() as int,
            ),
        decreases k,
    {
        if find_longest_value(s, start, k) > 0 {
            return k;
        }
        k = k - 1;
    }
    0
}

/// The key and the raw value of the first match of `(\S+)='(\S+)'` in
/// `line`, as a regular expression search finds it; `None` where the pattern
/// occurs nowhere in the line.
pub fn parse_property_line(line: &str) -> (r: Option<(String, String)>)
    ensures
        line_property(line@) == match r {
            Some((k, v)) => Some((k@, v@)),
            None => None,
        },
{
    let s = chars_of(line);
    let n = s.len();
    let mut start: usize = 0;
    while start < n
        invariant
            start <= n == s@.len(),
            s@ == line@,
            leftmost_match(s@, start as int) == leftmost_match(s@, 0),
        decreases n - start,
    {
        let k = find_longest_key(&s, start);
        if k > 0 {
            let v = find_longest_value(&s, start, k);
            let key = copy_range(&s, start, start + k);
            let value = copy_range(&s, start + k + 2, start + k + 2 + v);
            return Some((string_of(&key), string_of(&value)));
        }
        start = start + 1;
    }
    None
}


/// The raw value of property `key` in a listing: that of its last line
/// that states it, or `None` where no line does.
pub fn property_value(lines: &Vec<String>, key: &str) -> (r: Option<String>)
    ensures
        opt_view(r) == property(lines@, key@),
{
    let wanted = String::from_str(key);
    let mut i = lines.len();
    assert(lines@.take(i as int) =~= lines@);
    while i > 0
        invariant
            i <= lines@.len(),
            wanted@ == key@,
            property(lines@.take(i as int), key@) == property(lines@, key@),
        decreases i,
    {
        let seen = Ghost(lines@.take(i as int));
        assert(seen@.last() == lines@[i - 1]);
        assert(seen@.drop_last() =~= lines@.take(i - 1));
        match parse_property_line(lines[i - 1].as_str()) {
            Some((k, v)) => {
                if k == wanted {
                    return Some(v);
                }
            },
            None => {},
        }
        i = i - 1;
    }
    None
}

fn decoded_value(lines: &Vec<String>, key: &str) -> (r: Option<String>)
    ensures
        opt_view(r) == decoded_property(lines@, key@),
{
    match property_value(lines, key) {
        Some(raw) => Some(udevadm_decode(raw.as_str())),
        None => None,
    }
}

/// The present device that one device's property listing describes: `None`
/// unless its bus is `usb` and it names a device node.
pub fn read_usb_info(lines: &Vec<String>) -> (r: Option<PresentTty>)
    ensures
        opt_present_view(r) == usb_info(lines@),
        property(lines@, "ID_BUS"@) != Some("usb"@) ==> r is None,
{
    let usb = String::from_str("usb");
    match property_value(lines, "ID_BUS") {
        Some(bus) => {
            if !(bus == usb) {
                return None;
            }
        },
        None => {
            return None;
        },
    }
    match decoded_value(lines, "DEVNAME") {
        Some(devname) => {
            let tty = Tty {
                manufacturer: decoded_value(lines, "ID_VENDOR_ENC"),
                model: decoded_value(lines, "ID_MODEL_ENC"),
                serial: decoded_value(lines, "ID_SERIAL_SHORT"),
            };
            Some(PresentTty { tty, device: devname })
        },
        None => None,
    }
}

/// The present devices that the property listings of the candidate device
/// nodes describe, in the order of the listings.
pub fn available_ttys(listings: &Vec<Vec<String>>) -> (r: Vec<PresentTty>)
    ensures
        r@.map_values(|p: PresentTty| p@) == enumerated(listings@),
{
    let mut out: Vec<PresentTty> = Vec::new();
    let mut i: usize = 0;
    while i < listings.len()
        invariant
            i <= listings@.len(),
            out@.map_values(|p: PresentTty| p@) == enumerated(listings@.take(i as int)),
        decreases listings@.len() - i,
    {
        assert(listings@.take(i + 1).drop_last() =~= listings@.take(i as int));
        match read_usb_info(&listings[i]) {
            Some(p) => {
                out.push(p);
            },
            None => {},
        }
        i = i + 1;
        assert(out@.map_values(|p: PresentTty| p@) =~= enumerated(listings@.take(i as int)));
    }
    assert(listings@.take(i as int) =~= listings@);
    out
}

proof fn lemma_enumerated_append(a: Seq<Vec<String>>, b: Seq<Vec<String>>)
    ensures
        enumerated(a + b) == enumerated(a) + enumerated(b),
    decreases b.len(),
{
    if b.len() == 0 {
        assert(a + b =~= a);
        assert(enumerated(a) + enumerated(b) =~= enumerated(a));
    } else {
        assert((a + b).drop_last() =~= a + b.drop_last());
        assert((a + b).last() == b.last());
        lemma_enumerated_append(a, b.drop_last());
        match usb_info(b.last()@) {
            Some(p) => {
                assert(enumerated(a) + enumerated(b) =~= (enumerated(a) + enumerated(b.drop_last())).push(p));
            },
            None => {},
        }
    }
}

/// A candidate whose listing does not give `usb` as its bus never shows among
/// the present devices, wherever it stands among the candidates and whatever
/// else its listing holds.
pub proof fn lemma_non_usb_never_enumerated(
    before: Seq<Vec<String>>,
    candidate: Vec<String>,
    after: Seq<Vec<String>>,
)
    requires
        property(candidate@, "ID_BUS"@) != Some("usb"@),
    ensures
        enumerated(before.push(candidate) + after) == enumerated(before + after),
        usb_info(candidate@) is None,
{
    lemma_enumerated_append(before.push(candidate), after);
    lemma_enumerated_append(before, after);
    assert(before.push(candidate).drop_last() =~= before);
}

} // verus!
