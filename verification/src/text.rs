//! Byte-string helpers: copying, comparing, wildcard matching, and the two
//! kinds of unescaping (JSON strings and path components).

use vstd::prelude::*;

verus! {

/// Lexicographic order on byte strings; a proper prefix comes first.
pub open spec fn lex_less(a: Seq<u8>, b: Seq<u8>) -> bool
    decreases a.len(),
{
    if b.len() == 0 {
        false
    } else if a.len() == 0 {
        true
    } else if a[0] != b[0] {
        a[0] < b[0]
    } else {
        lex_less(a.subrange(1, a.len() as int), b.subrange(1, b.len() as int))
    }
}

/// `lex_less` on the tails that start at `i`.
pub open spec fn lex_less_from(a: Seq<u8>, b: Seq<u8>, i: int) -> bool {
    lex_less(a.subrange(i, a.len() as int), b.subrange(i, b.len() as int))
}

/// Wildcard match of the pattern tail `pat[pi..]` against the text tail
/// `s[si..]`: `*` stands for any run of bytes, the empty one too, `?` for
/// exactly one byte, and a backslash makes the byte after it literal.
pub open spec fn glob_from(pat: Seq<u8>, pi: int, s: Seq<u8>, si: int) -> bool
    decreases pat.len() - pi, s.len() - si,
{
    if pi < 0 || si < 0 || si > s.len() {
        false
    } else if pi >= pat.len() {
        si == s.len()
    } else if pat[pi] == 0x2a {
        glob_from(pat, pi + 1, s, si) || (si < s.len() && glob_from(pat, pi, s, si + 1))
    } else if pat[pi] == 0x3f {
        si < s.len() && glob_from(pat, pi + 1, s, si + 1)
    } else if pat[pi] == 0x5c && pi + 1 < pat.len() {
        si < s.len() && s[si] == pat[pi + 1] && glob_from(pat, pi + 2, s, si + 1)
    } else {
        si < s.len() && s[si] == pat[pi] && glob_from(pat, pi + 1, s, si + 1)
    }
}

/// Wildcard match of a whole pattern against a whole text.
pub open spec fn glob(pat: Seq<u8>, s: Seq<u8>) -> bool {
    glob_from(pat, 0, s, 0)
}

/// A path component with its escapes taken out: a backslash is dropped and the
/// byte after it kept as it is.
pub open spec fn unescape_path(s: Seq<u8>) -> Seq<u8>
    decreases s.len(),
{
    if s.len() == 0 {
        Seq::empty()
    } else if s[0] == 0x5c {
        if s.len() == 1 {
            Seq::empty()
        } else {
            seq![s[1]] + unescape_path(s.subrange(2, s.len() as int))
        }
    } else {
        seq![s[0]] + unescape_path(s.subrange(1, s.len() as int))
    }
}

/// A hexadecimal digit.
pub open spec fn is_hex(c: u8) -> bool {
    (0x30 <= c <= 0x39) || (0x41 <= c <= 0x46) || (0x61 <= c <= 0x66)
}

/// The number that a hexadecimal digit writes.
pub open spec fn hex_value(c: u8) -> int {
    if 0x30 <= c <= 0x39 {
        c - 0x30
    } else if 0x41 <= c <= 0x46 {
        c - 0x41 + 10
    } else {
        c - 0x61 + 10
    }
}

/// True if four hexadecimal digits stand at `i`.
pub open spec fn hex4_at(s: Seq<u8>, i: int) -> bool {
    0 <= i && i + 4 <= s.len() && is_hex(s[i]) && is_hex(s[i + 1]) && is_hex(s[i + 2]) && is_hex(
        s[i + 3],
    )
}

/// The number that the four hexadecimal digits at `i` write.
pub open spec fn hex4_value(s: Seq<u8>, i: int) -> int {
    hex_value(s[i]) * 4096 + hex_value(s[i + 1]) * 256 + hex_value(s[i + 2]) * 16 + hex_value(
        s[i + 3],
    )
}

/// The UTF-8 bytes of a code point below 0x110000.
pub open spec fn utf8_of(cp: int) -> Seq<u8> {
    if cp < 0x80 {
        seq![cp as u8]
    } else if cp < 0x800 {
        seq![(0xc0 + cp / 64) as u8, (0x80 + cp % 64) as u8]
    } else if cp < 0x10000 {
        seq![(0xe0 + cp / 4096) as u8, (0x80 + (cp / 64) % 64) as u8, (0x80 + cp % 64) as u8]
    } else {
        seq![
            (0xf0 + cp / 262144) as u8,
            (0x80 + (cp / 4096) % 64) as u8,
            (0x80 + (cp / 64) % 64) as u8,
            (0x80 + cp % 64) as u8,
        ]
    }
}

/// True if a `\u` escape for a low surrogate stands at `i`.
pub open spec fn low_surrogate_at(s: Seq<u8>, i: int) -> bool {
    0 <= i && i + 6 <= s.len() && s[i] == 0x5c && s[i + 1] == 0x75 && hex4_at(s, i + 2) && 0xdc00
        <= hex4_value(s, i + 2) < 0xe000
}

/// The bytes that one escape sequence stands for; `i` is the position of the
/// byte after the backslash.
pub open spec fn escape_bytes(s: Seq<u8>, i: int) -> Seq<u8> {
    let c = s[i];
    if c == 0x6e {
        seq![0x0au8]
    } else if c == 0x74 {
        seq![0x09u8]
    } else if c == 0x72 {
        seq![0x0du8]
    } else if c == 0x62 {
        seq![0x08u8]
    } else if c == 0x66 {
        seq![0x0cu8]
    } else if c == 0x75 {
        if !hex4_at(s, i + 1) {
            Seq::empty()
        } else {
            let hi = hex4_value(s, i + 1);
            if 0xd800 <= hi < 0xdc00 && low_surrogate_at(s, i + 5) {
                utf8_of(0x10000 + (hi - 0xd800) * 1024 + (hex4_value(s, i + 7) - 0xdc00))
            } else if 0xd800 <= hi < 0xe000 {
                utf8_of(0xfffd)
            } else {
                utf8_of(hi)
            }
        }
    } else {
        seq![c]
    }
}

/// How many bytes one escape sequence takes, counted from the byte after the
/// backslash.
pub open spec fn escape_len(s: Seq<u8>, i: int) -> int {
    if s[i] == 0x75 && hex4_at(s, i + 1) {
        let hi = hex4_value(s, i + 1);
        if 0xd800 <= hi < 0xdc00 && low_surrogate_at(s, i + 5) {
            11
        } else {
            5
        }
    } else {
        1
    }
}

/// The bytes that the body of a JSON string stands for, from position `i` of
/// the body on. `\n`, `\t`, `\r`, `\b`, `\f` give their control byte, `\uXXXX`
/// gives the UTF-8 form of its code point (a surrogate pair gives one code
/// point, a lone surrogate U+FFFD, a malformed `\u` nothing), and any other
/// escaped byte stands for itself.
pub open spec fn unescape_from(s: Seq<u8>, i: int) -> Seq<u8>
    decreases s.len() - i,
{
    if i < 0 || i >= s.len() {
        Seq::empty()
    } else if s[i] != 0x5c {
        seq![s[i]] + unescape_from(s, i + 1)
    } else if i + 1 >= s.len() {
        Seq::empty()
    } else {
        escape_bytes(s, i + 1) + unescape_from(s, i + 1 + escape_len(s, i + 1))
    }
}

/// The raw text of a JSON string without its quotes. An unterminated string
/// has no closing quote to drop.
pub open spec fn string_body(raw: Seq<u8>) -> Seq<u8> {
    if raw.len() >= 2 && raw[0] == 0x22 && raw[raw.len() - 1] == 0x22 {
        raw.subrange(1, raw.len() - 1)
    } else if raw.len() >= 1 && raw[0] == 0x22 {
        raw.subrange(1, raw.len() as int)
    } else {
        raw
    }
}

/// The bytes that a raw JSON string stands for.
pub open spec fn unescape_json(raw: Seq<u8>) -> Seq<u8> {
    unescape_from(string_body(raw), 0)
}

/// The decimal digits of a natural number, most significant first.
pub open spec fn decimal(n: nat) -> Seq<u8>
    decreases n,
{
    if n < 10 {
        seq![(0x30 + n) as u8]
    } else {
        decimal(n / 10).push((0x30 + n % 10) as u8)
    }
}

/// The number that a run of decimal digits writes.
pub open spec fn digits_value(s: Seq<u8>) -> nat
    decreases s.len(),
{
    if s.len() == 0 {
        0
    } else {
        digits_value(s.drop_last()) * 10 + (s.last() - 0x30) as nat
    }
}

/// True if every byte is a decimal digit.
pub open spec fn all_digits(s: Seq<u8>) -> bool {
    forall|i: int| 0 <= i < s.len() ==> 0x30 <= #[trigger] s[i] <= 0x39
}

/// Appends `src[lo..hi]` to `out`.
pub fn append(out: &mut Vec<u8>, src: &[u8], lo: usize, hi: usize)
    requires
        lo <= hi <= src@.len(),
    ensures
        final(out)@ == old(out)@ + src@.subrange(lo as int, hi as int),
{
    let mut i: usize = lo;
    while i < hi
        invariant
            lo <= i <= hi <= src@.len(),
            out@ == old(out)@ + src@.subrange(lo as int, i as int),
        decreases hi - i,
    {
        out.push(src[i]);
        i += 1;
        proof {
            assert(out@ =~= old(out)@ + src@.subrange(lo as int, i as int));
        }
    }
}

/// Appends all of `src` to `out`.
pub fn append_all(out: &mut Vec<u8>, src: &[u8])
    ensures
        final(out)@ == old(out)@ + src@,
{
    let n = src.len();
    append(out, src, 0, n);
    proof {
        assert(src@.subrange(0, n as int) =~= src@);
    }
}

/// A fresh copy of `src[lo..hi]`.
pub fn copy_range(src: &[u8], lo: usize, hi: usize) -> (r: Vec<u8>)
    requires
        lo <= hi <= src@.len(),
    ensures
        r@ == src@.subrange(lo as int, hi as int),
{
    let mut out: Vec<u8> = Vec::new();
    append(&mut out, src, lo, hi);
    proof {
        assert(out@ =~= src@.subrange(lo as int, hi as int));
    }
    out
}

/// Byte-for-byte equality.
pub fn bytes_eq(a: &[u8], b: &[u8]) -> (r: bool)
    ensures
        r == (a@ == b@),
{
    let n = a.len();
    if n != b.len() {
        return false;
    }
    let mut i: usize = 0;
    while i < n
        invariant
            n == a@.len(),
            n == b@.len(),
            i <= n,
            forall|j: int| 0 <= j < i ==> a@[j] == b@[j],
        decreases n - i,
    {
        if a[i] != b[i] {
            return false;
        }
        i += 1;
    }
    proof {
        assert(a@ =~= b@);
    }
    true
}

/// Lexicographic comparison.
pub fn bytes_less(a: &[u8], b: &[u8]) -> (r: bool)
    ensures
        r == lex_less(a@, b@),
{
    let na = a.len();
    let nb = b.len();
    let mut i: usize = 0;
    proof {
        assert(a@.subrange(0, na as int) =~= a@);
        assert(b@.subrange(0, nb as int) =~= b@);
    }
    loop
        invariant
            na == a@.len(),
            nb == b@.len(),
            i <= na,
            i <= nb,
            lex_less(a@, b@) == lex_less_from(a@, b@, i as int),
        decreases na - i,
    {
        let ghost ta = a@.subrange(i as int, na as int);
        let ghost tb = b@.subrange(i as int, nb as int);
        if i >= nb {
            return false;
        }
        if i >= na {
            return true;
        }
        proof {
            assert(ta[0] == a@[i as int]);
            assert(tb[0] == b@[i as int]);
            assert(ta.subrange(1, ta.len() as int) =~= a@.subrange(i + 1, na as int));
            assert(tb.subrange(1, tb.len() as int) =~= b@.subrange(i + 1, nb as int));
        }
        if a[i] != b[i] {
            return a[i] < b[i];
        }
        i += 1;
    }
}

/// Wildcard match of `pat[pi..]` against `s[si..]`.
pub fn glob_match_from(pat: &[u8], pi: usize, s: &[u8], si: usize) -> (r: bool)
    requires
        pi <= pat@.len(),
        si <= s@.len(),
    ensures
        r == glob_from(pat@, pi as int, s@, si as int),
    decreases pat@.len() - pi, s@.len() - si,
{
    let np = pat.len();
    let ns = s.len();
    if pi >= np {
        return si == ns;
    }
    let c = pat[pi];
    if c == 0x2a {
        if glob_match_from(pat, pi + 1, s, si) {
            true
        } else if si < ns {
            glob_match_from(pat, pi, s, si + 1)
        } else {
            false
        }
    } else if c == 0x3f {
        si < ns && glob_match_from(pat, pi + 1, s, si + 1)
    } else if c == 0x5c && np - pi > 1 {
        si < ns && s[si] == pat[pi + 1] && glob_match_from(pat, pi + 2, s, si + 1)
    } else {
        si < ns && s[si] == c && glob_match_from(pat, pi + 1, s, si + 1)
    }
}

/// Wildcard match of a pattern against a text.
pub fn glob_match(pat: &[u8], s: &[u8]) -> (r: bool)
    ensures
        r == glob(pat@, s@),
{
    glob_match_from(pat, 0, s, 0)
}

/// Takes the escapes out of a path component.
pub fn path_unescape(s: &[u8]) -> (r: Vec<u8>)
    ensures
        r@ == unescape_path(s@),
{
    let n = s.len();
    let mut out: Vec<u8> = Vec::new();
    let mut i: usize = 0;
    proof {
        assert(s@.subrange(0, n as int) =~= s@);
    }
    while i < n
        invariant
            n == s@.len(),
            i <= n,
            unescape_path(s@) == out@ + unescape_path(s@.subrange(i as int, n as int)),
        decreases n - i,
    {
        let ghost t = s@.subrange(i as int, n as int);
        proof {
            assert(t[0] == s@[i as int]);
        }
        if s[i] == 0x5c {
            if n - i == 1 {
                proof {
                    assert(out@ + Seq::<u8>::empty() =~= out@);
                    assert(s@.subrange(n as int, n as int) =~= Seq::<u8>::empty());
                }
                i = n;
            } else {
                proof {
                    assert(t[1] == s@[i + 1]);
                    assert(t.subrange(2, t.len() as int) =~= s@.subrange(i + 2, n as int));
                    assert(out@ + (seq![s@[i + 1]] + unescape_path(s@.subrange(i + 2, n as int)))
                        =~= out@.push(s@[i + 1]) + unescape_path(s@.subrange(i + 2, n as int)));
                }
                out.push(s[i + 1]);
                i += 2;
            }
        } else {
            proof {
                assert(t.subrange(1, t.len() as int) =~= s@.subrange(i + 1, n as int));
                assert(out@ + (seq![s@[i as int]] + unescape_path(s@.subrange(i + 1, n as int)))
                    =~= out@.push(s@[i as int]) + unescape_path(s@.subrange(i + 1, n as int)));
            }
            out.push(s[i]);
            i += 1;
        }
    }
    proof {
        assert(s@.subrange(n as int, n as int) =~= Seq::<u8>::empty());
        assert(out@ + Seq::<u8>::empty() =~= out@);
    }
    out
}

/// Tests for a hexadecimal digit.
pub fn hex_digit(c: u8) -> (r: bool)
    ensures
        r == is_hex(c),
{
    (0x30 <= c && c <= 0x39) || (0x41 <= c && c <= 0x46) || (0x61 <= c && c <= 0x66)
}

fn hex_digit_value(c: u8) -> (r: u32)
    requires
        is_hex(c),
    ensures
        r == hex_value(c),
        r < 16,
{
    if 0x30 <= c && c <= 0x39 {
        (c - 0x30) as u32
    } else if 0x41 <= c && c <= 0x46 {
        (c - 0x41 + 10) as u32
    } else {
        (c - 0x61 + 10) as u32
    }
}

fn has_hex4(s: &[u8], i: usize) -> (r: bool)
    requires
        i <= s@.len(),
    ensures
        r == hex4_at(s@, i as int),
{
    let n = s.len();
    n - i >= 4 && hex_digit(s[i]) && hex_digit(s[i + 1]) && hex_digit(s[i + 2]) && hex_digit(
        s[i + 3],
    )
}

fn read_hex4(s: &[u8], i: usize) -> (r: u32)
    requires
        hex4_at(s@, i as int),
    ensures
        r == hex4_value(s@, i as int),
        r < 0x10000,
{
    hex_digit_value(s[i]) * 4096 + hex_digit_value(s[i + 1]) * 256 + hex_digit_value(s[i + 2])
        * 16 + hex_digit_value(s[i + 3])
}

fn has_low_surrogate(s: &[u8], i: usize) -> (r: bool)
    requires
        i <= s@.len(),
    ensures
        r == low_surrogate_at(s@, i as int),
{
    let n = s.len();
    if n - i < 6 {
        return false;
    }
    if s[i] != 0x5c || s[i + 1] != 0x75 {
        return false;
    }
    if !has_hex4(s, i + 2) {
        return false;
    }
    let v = read_hex4(s, i + 2);
    0xdc00 <= v && v < 0xe000
}

/// Appends the UTF-8 form of a code point.
fn push_utf8(out: &mut Vec<u8>, cp: u32)
    requires
        cp < 0x110000,
    ensures
        final(out)@ == old(out)@ + utf8_of(cp as int),
{
    if cp < 0x80 {
        out.push(cp as u8);
    } else if cp < 0x800 {
        out.push((0xc0 + cp / 64) as u8);
        out.push((0x80 + cp % 64) as u8);
    } else if cp < 0x10000 {
        out.push((0xe0 + cp / 4096) as u8);
        out.push((0x80 + (cp / 64) % 64) as u8);
        out.push((0x80 + cp % 64) as u8);
    } else {
        out.push((0xf0 + cp / 262144) as u8);
        out.push((0x80 + (cp / 4096) % 64) as u8);
        out.push((0x80 + (cp / 64) % 64) as u8);
        out.push((0x80 + cp % 64) as u8);
    }
    proof {
        assert(out@ =~= old(out)@ + utf8_of(cp as int));
    }
}

/// Appends what the escape sequence at `i` (the byte after the backslash)
/// stands for, and returns how many bytes the sequence takes from `i`.
fn push_escape(out: &mut Vec<u8>, s: &[u8], i: usize) -> (r: usize)
    requires
        i < s@.len(),
    ensures
        final(out)@ == old(out)@ + escape_bytes(s@, i as int),
        r == escape_len(s@, i as int),
        1 <= r <= 11,
{
    let c = s[i];
    if c == 0x6e {
        out.push(0x0a);
    } else if c == 0x74 {
        out.push(0x09);
    } else if c == 0x72 {
        out.push(0x0d);
    } else if c == 0x62 {
        out.push(0x08);
    } else if c == 0x66 {
        out.push(0x0c);
    } else if c == 0x75 {
        if !has_hex4(s, i + 1) {
            proof {
                assert(out@ =~= old(out)@ + escape_bytes(s@, i as int));
            }
            return 1;
        }
        let hi = read_hex4(s, i + 1);
        if 0xd800 <= hi && hi < 0xdc00 && has_low_surrogate(s, i + 5) {
            let lo = read_hex4(s, i + 7);
            push_utf8(out, 0x10000 + (hi - 0xd800) * 1024 + (lo - 0xdc00));
            return 11;
        } else if 0xd800 <= hi && hi < 0xe000 {
            push_utf8(out, 0xfffd);
        } else {
            push_utf8(out, hi);
        }
        return 5;
    } else {
        out.push(c);
    }
    proof {
        assert(out@ =~= old(out)@ + escape_bytes(s@, i as int));
    }
    1
}

/// Unescapes `s[lo..hi]`, the body of a JSON string.
pub fn unescape_body(s: &[u8], lo: usize, hi: usize) -> (r: Vec<u8>)
    requires
        lo <= hi <= s@.len(),
    ensures
        r@ == unescape_from(s@.subrange(lo as int, hi as int), 0),
{
    let body = vstd::slice::slice_subrange(s, lo, hi);
    let n = body.len();
    let mut out: Vec<u8> = Vec::new();
    let mut i: usize = 0;
    while i < n
        invariant
            n == body@.len(),
            i <= n,
            unescape_from(body@, 0) == out@ + unescape_from(body@, i as int),
        decreases n - i,
    {
        if body[i] != 0x5c {
            proof {
                assert(out@ + (seq![body@[i as int]] + unescape_from(body@, i + 1)) =~= out@.push(
                    body@[i as int],
                ) + unescape_from(body@, i + 1));
            }
            out.push(body[i]);
            i += 1;
        } else if n - i == 1 {
            proof {
                assert(out@ + Seq::<u8>::empty() =~= out@);
            }
            i = n;
        } else {
            let ghost before = out@;
            let k = push_escape(&mut out, body, i + 1);
            proof {
                assert(before + (escape_bytes(body@, i + 1) + unescape_from(body@, i + 1 + k))
                    =~= out@ + unescape_from(body@, i + 1 + k));
            }
            if n - i - 1 < k {
                i = n;
            } else {
                i = i + 1 + k;
            }
        }
    }
    proof {
        assert(out@ + Seq::<u8>::empty() =~= out@);
    }
    out
}

/// The bytes that a raw JSON string (quotes included) stands for.
pub fn json_unescape(raw: &[u8]) -> (r: Vec<u8>)
    ensures
        r@ == unescape_json(raw@),
{
    let n = raw.len();
    if n >= 2 && raw[0] == 0x22 && raw[n - 1] == 0x22 {
        unescape_body(raw, 1, n - 1)
    } else if n >= 1 && raw[0] == 0x22 {
        unescape_body(raw, 1, n)
    } else {
        proof {
            assert(raw@.subrange(0, n as int) =~= raw@);
        }
        unescape_body(raw, 0, n)
    }
}

/// Appends the decimal digits of `n`.
pub fn push_decimal(out: &mut Vec<u8>, n: usize)
    ensures
        final(out)@ == old(out)@ + decimal(n as nat),
    decreases n,
{
    if n < 10 {
        out.push((0x30 + n) as u8);
        proof {
            assert(out@ =~= old(out)@ + decimal(n as nat));
        }
    } else {
        push_decimal(out, n / 10);
        out.push((0x30 + n % 10) as u8);
        proof {
            assert(out@ =~= old(out)@ + decimal(n as nat));
        }
    }
}

/// True if `s[lo..hi]` is made of decimal digits only.
pub fn digits_only(s: &[u8], lo: usize, hi: usize) -> (r: bool)
    requires
        lo <= hi <= s@.len(),
    ensures
        r == all_digits(s@.subrange(lo as int, hi as int)),
{
    let mut i: usize = lo;
    while i < hi
        invariant
            lo <= i <= hi <= s@.len(),
            forall|j: int| lo <= j < i ==> 0x30 <= #[trigger] s@[j] <= 0x39,
        decreases hi - i,
    {
        if !(0x30 <= s[i] && s[i] <= 0x39) {
            proof {
                assert(s@.subrange(lo as int, hi as int)[i - lo] == s@[i as int]);
            }
            return false;
        }
        i += 1;
    }
    proof {
        assert forall|j: int| 0 <= j < hi - lo implies 0x30 <= #[trigger] s@.subrange(
            lo as int,
            hi as int,
        )[j] <= 0x39 by {
            assert(s@.subrange(lo as int, hi as int)[j] == s@[lo + j]);
        }
    }
    true
}

/// Reads `s[lo..hi]`, a run of decimal digits, as a number. `None` where the
/// number does not fit.
pub fn read_digits(s: &[u8], lo: usize, hi: usize) -> (r: Option<usize>)
    requires
        lo <= hi <= s@.len(),
        all_digits(s@.subrange(lo as int, hi as int)),
    ensures
        r matches Some(v) ==> v == digits_value(s@.subrange(lo as int, hi as int)),
        r is None ==> digits_value(s@.subrange(lo as int, hi as int)) > usize::MAX,
{
    let mut i: usize = lo;
    let mut acc: usize = 0;
    proof {
        assert(s@.subrange(lo as int, lo as int) =~= Seq::<u8>::empty());
    }
    while i < hi
        invariant
            lo <= i <= hi <= s@.len(),
            all_digits(s@.subrange(lo as int, hi as int)),
            acc == digits_value(s@.subrange(lo as int, i as int)),
        decreases hi - i,
    {
        let ghost t = s@.subrange(lo as int, i + 1);
        proof {
            assert(t.drop_last() =~= s@.subrange(lo as int, i as int));
            assert(t.last() == s@[i as int]);
            assert(s@.subrange(lo as int, hi as int)[i - lo] == s@[i as int]);
        }
        let d: usize = (s[i] - 0x30) as usize;
        if acc > (usize::MAX - d) / 10 {
            proof {
                lemma_digits_value_grows(s@.subrange(lo as int, hi as int), i + 1 - lo);
                assert(s@.subrange(lo as int, hi as int).subrange(0, i + 1 - lo) =~= t);
            }
            return None;
        }
        acc = acc * 10 + d;
        i += 1;
    }
    Some(acc)
}

/// A run of digits writes a number no smaller than any of its prefixes does.
pub proof fn lemma_digits_value_grows(s: Seq<u8>, k: int)
    requires
        0 <= k <= s.len(),
        all_digits(s),
    ensures
        digits_value(s.subrange(0, k)) <= digits_value(s),
    decreases s.len(),
{
    if k == s.len() {
        assert(s.subrange(0, k) =~= s);
    } else {
        lemma_digits_value_grows(s.drop_last(), k);
        assert(s.drop_last().subrange(0, k) =~= s.subrange(0, k));
    }
}

} // verus!
