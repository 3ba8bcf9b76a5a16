use vstd::prelude::*;

use crate::interpreter::Error;

verus! {

/// The characters with the Unicode `White_Space` property.
pub open spec fn is_space(c: char) -> bool {
    c == '\t' || c == '\n' || c == '\u{0B}' || c == '\u{0C}' || c == '\r' || c == ' '
        || c == '\u{85}' || c == '\u{A0}' || c == '\u{1680}' || ('\u{2000}' <= c
        && c <= '\u{200A}') || c == '\u{2028}' || c == '\u{2029}' || c == '\u{202F}'
        || c == '\u{205F}' || c == '\u{3000}'
}

/// `s` without its leading white space.
pub open spec fn trim_start(s: Seq<char>) -> Seq<char>
    decreases s.len(),
{
    if s.len() > 0 && is_space(s[0]) {
        trim_start(s.drop_first())
    } else {
        s
    }
}

/// `s` without its trailing white space.
pub open spec fn trim_end(s: Seq<char>) -> Seq<char>
    decreases s.len(),
{
    if s.len() > 0 && is_space(s.last()) {
        trim_end(s.drop_last())
    } else {
        s
    }
}

pub open spec fn is_digit(c: char) -> bool {
    '0' <= c && c <= '9'
}

/// The number that a row of decimal digits writes.
pub open spec fn digits_value(d: Seq<char>) -> nat
    decreases d.len(),
{
    if d.len() == 0 {
        0
    } else {
        digits_value(d.drop_last()) * 10 + (d.last() as nat - '0' as nat) as nat
    }
}

/// `t` without a leading `+`.
pub open spec fn unsigned_part(t: Seq<char>) -> Seq<char> {
    if t.len() > 0 && t[0] == '+' {
        t.drop_first()
    } else {
        t
    }
}

pub open spec fn all_digits(d: Seq<char>) -> bool {
    forall|k: int| 0 <= k < d.len() ==> is_digit(#[trigger] d[k])
}

/// The byte a trimmed line writes: an optional `+`, then one or more
/// decimal digits whose value is at most 255.
pub open spec fn byte_of(t: Seq<char>) -> Option<u8> {
    let d = unsigned_part(t);
    if d.len() > 0 && all_digits(d) && digits_value(d) <= 255 {
        Some(digits_value(d) as u8)
    } else {
        None
    }
}

fn is_space_char(c: char) -> (r: bool)
    ensures
        r == is_space(c),
{
    c == '\t' || c == '\n' || c == '\u{0B}' || c == '\u{0C}' || c == '\r' || c == ' '
        || c == '\u{85}' || c == '\u{A0}' || c == '\u{1680}' || ('\u{2000}' <= c
        && c <= '\u{200A}') || c == '\u{2028}' || c == '\u{2029}' || c == '\u{202F}'
        || c == '\u{205F}' || c == '\u{3000}'
}

/// The bounds of `line` with the white space around it left out.
fn trimmed_range(line: &str) -> (r: (usize, usize))
    ensures
        r.0 <= r.1 <= line@.len(),
        trim_end(trim_start(line@)) == line@.subrange(r.0 as int, r.1 as int),
{
    let n = line.unicode_len();
    let ghost s = line@;
    let mut a: usize = 0;
    assert(s.subrange(0, n as int) =~= s);
    while a < n && is_space_char(line.get_char(a))
        invariant
            n == s.len(),
            s == line@,
            a <= n,
            trim_start(s) == trim_start(s.subrange(a as int, n as int)),
        decreases n - a,
    {
        assert(s.subrange(a as int, n as int).drop_first() =~= s.subrange(a + 1, n as int));
        a = a + 1;
    }
    assert(trim_start(s) == s.subrange(a as int, n as int));
    let mut b: usize = n;
    while b > a && is_space_char(line.get_char(b - 1))
        invariant
            n == s.len(),
            s == line@,
            a <= b <= n,
            trim_end(trim_start(s)) == trim_end(s.subrange(a as int, b as int)),
        decreases b,
    {
        assert(s.subrange(a as int, b as int).drop_last() =~= s.subrange(a as int, b - 1));
        b = b - 1;
    }
    (a, b)
}

/// Whether a line of program text is a lone statement terminator `;`,
/// which stands for no instruction.
pub fn is_terminator_line(line: &str) -> (r: bool)
    ensures
        r == (trim_end(trim_start(line@)) == seq![';']),
{
    let (a, b) = trimmed_range(line);
    let ghost t = line@.subrange(a as int, b as int);
    if b - a == 1 {
        let c = line.get_char(a);
        assert(t =~= seq![c]);
        assert(t[0] == c);
        assert(seq![';'][0] == ';');
        c == ';'
    } else {
        assert(t.len() != seq![';'].len());
        false
    }
}

/// Reads the value for an input instruction from one line of text: white
/// space around it is ignored, and anything but a decimal byte (0 to 255,
/// optionally signed `+`) is `StdinReadFail`.
pub fn parse_cell_value(line: &str) -> (r: Result<u8, Error>)
    ensures
        r == (match byte_of(trim_end(trim_start(line@))) {
            Some(v) => Ok::<u8, Error>(v),
            None => Err::<u8, Error>(Error::StdinReadFail),
        }),
{
    let n = line.unicode_len();
    let ghost s = line@;
    let (a, b) = trimmed_range(line);
    let ghost t = s.subrange(a as int, b as int);
    assert(trim_end(trim_start(s)) == t);
    let mut i: usize = a;
    if i < b && line.get_char(i) == '+' {
        i = i + 1;
    }
    let ghost d = s.subrange(i as int, b as int);
    assert(d == unsigned_part(t)) by {
        if t.len() > 0 && t[0] == '+' {
            assert(t.drop_first() =~= d);
        } else {
            assert(t =~= d);
        }
    }
    if i == b {
        return Err(Error::StdinReadFail);
    }
    let start = i;
    let mut acc: u32 = 0;
    while i < b
        invariant
            n == s.len(),
            s == line@,
            start <= i <= b <= n,
            d == s.subrange(start as int, b as int),
            trim_end(trim_start(line@)) == t,
            d == unsigned_part(t),
            forall|k: int| start <= k < i ==> is_digit(#[trigger] s[k]),
            acc == (if digits_value(s.subrange(start as int, i as int)) < 256 {
                digits_value(s.subrange(start as int, i as int))
            } else {
                256
            }),
        decreases b - i,
    {
        let c = line.get_char(i);
        if !('0' <= c && c <= '9') {
            assert(d[i - start] == c);
            assert(!is_digit(d[i - start]));
            assert(byte_of(t) is None);
            return Err(Error::StdinReadFail);
        }
        let ghost p = s.subrange(start as int, i as int);
        let ghost q = s.subrange(start as int, i + 1);
        assert(q.drop_last() =~= p);
        let dv: u32 = (c as u32) - ('0' as u32);
        if acc < 256 {
            let x: u32 = acc * 10 + dv;
            acc = if x < 256 {
                x
            } else {
                256
            };
        } else {
            assert(digits_value(q) >= 256) by (nonlinear_arith)
                requires
                    digits_value(p) >= 256,
                    digits_value(q) == digits_value(p) * 10 + dv,
            ;
        }
        i = i + 1;
    }
    assert(s.subrange(start as int, i as int) =~= d);
    if acc < 256 {
        Ok(acc as u8)
    } else {
        Err(Error::StdinReadFail)
    }
}

} // verus!
