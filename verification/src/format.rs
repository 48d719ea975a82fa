//! Textual reformatting of JSON: the compact form and the indented form.
//!
//! Both walk the text once and only ever add or drop whitespace outside
//! strings, so neither needs the input to be valid.

use vstd::prelude::*;
use crate::scan::{is_close, is_open, is_space, space};
use crate::text::append_all;

verus! {

/// The compact form of `b`, read with string state `in_str`: whitespace
/// outside strings is dropped and every other byte kept.
pub open spec fn ugly_of(b: Seq<u8>, in_str: bool) -> Seq<u8>
    decreases b.len(),
{
    if b.len() == 0 {
        Seq::empty()
    } else if in_str {
        if b[0] == 0x5c && b.len() > 1 {
            seq![b[0], b[1]] + ugly_of(b.subrange(2, b.len() as int), true)
        } else {
            seq![b[0]] + ugly_of(b.subrange(1, b.len() as int), b[0] != 0x22)
        }
    } else if is_space(b[0]) {
        ugly_of(b.subrange(1, b.len() as int), false)
    } else {
        seq![b[0]] + ugly_of(b.subrange(1, b.len() as int), b[0] == 0x22)
    }
}

/// The compact form of a JSON text.
pub open spec fn ugly(b: Seq<u8>) -> Seq<u8> {
    ugly_of(b, false)
}

/// How the indented form is laid out: the bytes of one indentation step, the
/// bytes put in front of every line, and whether the members of objects are
/// sorted by key.
pub struct Style {
    pub indent: Seq<u8>,
    pub prefix: Seq<u8>,
    pub sort_keys: bool,
}

/// Layout options of the indented form, in executable form.
pub struct PrettyOptions {
    pub indent: Vec<u8>,
    pub prefix: Vec<u8>,
    pub sort_keys: bool,
}

impl View for PrettyOptions {
    type V = Style;

    open spec fn view(&self) -> Style {
        Style { indent: self.indent@, prefix: self.prefix@, sort_keys: self.sort_keys }
    }
}

/// Two spaces per level, no prefix, members in the order in which they stand.
pub open spec fn default_style() -> Style {
    Style { indent: seq![0x20u8, 0x20u8], prefix: Seq::empty(), sort_keys: false }
}

/// `s` written `n` times.
pub open spec fn repeat(s: Seq<u8>, n: nat) -> Seq<u8>
    decreases n,
{
    if n == 0 {
        Seq::empty()
    } else {
        repeat(s, (n - 1) as nat) + s
    }
}

/// A line feed, the prefix, and the indentation of level `depth`.
pub open spec fn line_break(st: Style, depth: nat) -> Seq<u8> {
    seq![0x0au8] + st.prefix + repeat(st.indent, depth)
}

/// The indented form of `b`, read at nesting `depth` with string state
/// `in_str`; `pending` says that a bracket has just been opened and nothing
/// put inside it yet.
///
/// An opening bracket is followed by a line break once a member follows, a
/// comma is followed by a line break, a colon by one space, and a closing
/// bracket is preceded by a line break unless its container is empty.
/// Whitespace of the input outside strings is dropped. The text ends with a
/// line feed unless it stops inside a string.
pub open spec fn pretty_of(b: Seq<u8>, depth: nat, in_str: bool, pending: bool, st: Style) -> Seq<
    u8,
>
    decreases b.len(),
{
    if b.len() == 0 {
        if in_str {
            Seq::empty()
        } else {
            seq![0x0au8]
        }
    } else {
        let c = b[0];
        let rest = b.subrange(1, b.len() as int);
        let lead = if pending { line_break(st, depth) } else { Seq::empty() };
        if in_str {
            if c == 0x5c && b.len() > 1 {
                seq![c, b[1]] + pretty_of(b.subrange(2, b.len() as int), depth, true, false, st)
            } else {
                seq![c] + pretty_of(rest, depth, c != 0x22, false, st)
            }
        } else if is_space(c) {
            pretty_of(rest, depth, false, pending, st)
        } else if is_open(c) {
            lead + seq![c] + pretty_of(rest, depth + 1, false, true, st)
        } else if is_close(c) {
            let d: nat = if depth > 0 { (depth - 1) as nat } else { 0 };
            (if pending { Seq::empty() } else { line_break(st, d) }) + seq![c] + pretty_of(
                rest,
                d,
                false,
                false,
                st,
            )
        } else if c == 0x2c {
            seq![c] + line_break(st, depth) + pretty_of(rest, depth, false, false, st)
        } else if c == 0x3a {
            seq![c, 0x20u8] + pretty_of(rest, depth, false, false, st)
        } else {
            lead + seq![c] + pretty_of(rest, depth, c == 0x22, false, st)
        }
    }
}

/// The indented form of a JSON text.
pub open spec fn pretty(b: Seq<u8>, st: Style) -> Seq<u8> {
    st.prefix + pretty_of(b, 0, false, false, st)
}

/// True if every byte is whitespace.
pub open spec fn all_space(s: Seq<u8>) -> bool {
    forall|i: int| 0 <= i < s.len() ==> is_space(#[trigger] s[i])
}

/// Whitespace outside a string leaves no trace in the compact form.
pub proof fn lemma_ugly_skips_space(w: Seq<u8>, y: Seq<u8>)
    requires
        all_space(w),
    ensures
        ugly_of(w + y, false) == ugly_of(y, false),
    decreases w.len(),
{
    if w.len() == 0 {
        assert(w + y =~= y);
    } else {
        let x = w + y;
        assert(x[0] == w[0]);
        assert(x.subrange(1, x.len() as int) =~= w.subrange(1, w.len() as int) + y);
        lemma_ugly_skips_space(w.subrange(1, w.len() as int), y);
    }
}

/// Whitespace written several times is whitespace.
pub proof fn lemma_repeat_space(s: Seq<u8>, n: nat)
    requires
        all_space(s),
    ensures
        all_space(repeat(s, n)),
    decreases n,
{
    if n > 0 {
        lemma_repeat_space(s, (n - 1) as nat);
    }
}

/// With a layout made of whitespace only, a line break is whitespace.
pub proof fn lemma_line_break_space(st: Style, depth: nat)
    requires
        all_space(st.indent),
        all_space(st.prefix),
    ensures
        all_space(line_break(st, depth)),
{
    lemma_repeat_space(st.indent, depth);
}

/// A byte that is kept, followed by more text.
proof fn lemma_ugly_keeps(c: u8, y: Seq<u8>)
    requires
        !is_space(c),
    ensures
        ugly_of(seq![c] + y, false) == seq![c] + ugly_of(y, c == 0x22),
{
    let x = seq![c] + y;
    assert(x[0] == c);
    assert(x.subrange(1, x.len() as int) =~= y);
}

/// With a layout made of whitespace only, the indented form has the same
/// compact form as the text it was made from, whatever the state in which the
/// text is read.
pub proof fn lemma_ugly_of_pretty_of(
    b: Seq<u8>,
    depth: nat,
    in_str: bool,
    pending: bool,
    st: Style,
)
    requires
        all_space(st.indent),
        all_space(st.prefix),
    ensures
        ugly_of(pretty_of(b, depth, in_str, pending, st), in_str) == ugly_of(b, in_str),
    decreases b.len(),
{
    if b.len() == 0 {
        if !in_str {
            lemma_ugly_skips_space(seq![0x0au8], Seq::empty());
            assert(seq![0x0au8] + Seq::<u8>::empty() =~= seq![0x0au8]);
        }
    } else {
        let c = b[0];
        let rest = b.subrange(1, b.len() as int);
        let lead = if pending { line_break(st, depth) } else { Seq::empty() };
        lemma_line_break_space(st, depth);
        if in_str {
            if c == 0x5c && b.len() > 1 {
                let tail = b.subrange(2, b.len() as int);
                let p = pretty_of(tail, depth, true, false, st);
                lemma_ugly_of_pretty_of(tail, depth, true, false, st);
                let x = seq![c, b[1]] + p;
                assert(x[0] == c && x[1] == b[1]);
                assert(x.subrange(2, x.len() as int) =~= p);
            } else {
                let p = pretty_of(rest, depth, c != 0x22, false, st);
                lemma_ugly_of_pretty_of(rest, depth, c != 0x22, false, st);
                let x = seq![c] + p;
                assert(x[0] == c);
                assert(x.subrange(1, x.len() as int) =~= p);
            }
        } else if is_space(c) {
            lemma_ugly_of_pretty_of(rest, depth, false, pending, st);
        } else if is_open(c) {
            let p = pretty_of(rest, depth + 1, false, true, st);
            lemma_ugly_of_pretty_of(rest, depth + 1, false, true, st);
            lemma_ugly_skips_space(lead, seq![c] + p);
            lemma_ugly_keeps(c, p);
            assert(lead + seq![c] + p =~= lead + (seq![c] + p));
        } else if is_close(c) {
            let d: nat = if depth > 0 { (depth - 1) as nat } else { 0 };
            let w = if pending { Seq::empty() } else { line_break(st, d) };
            lemma_line_break_space(st, d);
            let p = pretty_of(rest, d, false, false, st);
            lemma_ugly_of_pretty_of(rest, d, false, false, st);
            lemma_ugly_skips_space(w, seq![c] + p);
            lemma_ugly_keeps(c, p);
            assert(w + seq![c] + p =~= w + (seq![c] + p));
        } else if c == 0x2c {
            let w = line_break(st, depth);
            let p = pretty_of(rest, depth, false, false, st);
            lemma_ugly_of_pretty_of(rest, depth, false, false, st);
            lemma_ugly_keeps(c, w + p);
            lemma_ugly_skips_space(w, p);
            assert(seq![c] + w + p =~= seq![c] + (w + p));
        } else if c == 0x3a {
            let p = pretty_of(rest, depth, false, false, st);
            lemma_ugly_of_pretty_of(rest, depth, false, false, st);
            lemma_ugly_keeps(c, seq![0x20u8] + p);
            lemma_ugly_skips_space(seq![0x20u8], p);
            assert(seq![c, 0x20u8] + p =~= seq![c] + (seq![0x20u8] + p));
        } else {
            let p = pretty_of(rest, depth, c == 0x22, false, st);
            lemma_ugly_of_pretty_of(rest, depth, c == 0x22, false, st);
            lemma_ugly_skips_space(lead, seq![c] + p);
            lemma_ugly_keeps(c, p);
            assert(lead + seq![c] + p =~= lead + (seq![c] + p));
        }
    }
}

/// Reformatting is idempotent up to layout: with a layout made of whitespace
/// only, the compact form of the indented form of a text is the compact form
/// of the text.
pub proof fn lemma_ugly_of_pretty(b: Seq<u8>, st: Style)
    requires
        all_space(st.indent),
        all_space(st.prefix),
    ensures
        ugly(pretty(b, st)) == ugly(b),
{
    lemma_ugly_of_pretty_of(b, 0, false, false, st);
    lemma_ugly_skips_space(st.prefix, pretty_of(b, 0, false, false, st));
}

/// The default layout is made of whitespace only.
pub proof fn lemma_default_style_space()
    ensures
        all_space(default_style().indent),
        all_space(default_style().prefix),
{
}

/// The layout used when none is asked for.
pub fn default_options() -> (r: PrettyOptions)
    ensures
        r@ == default_style(),
{
    let mut indent: Vec<u8> = Vec::new();
    indent.push(0x20);
    indent.push(0x20);
    proof {
        assert(indent@ =~= seq![0x20u8, 0x20u8]);
    }
    PrettyOptions { indent, prefix: Vec::new(), sort_keys: false }
}

/// Writes the compact form of `b` into a fresh buffer.
pub fn make_ugly(b: &[u8]) -> (r: Vec<u8>)
    ensures
        r@ == ugly(b@),
{
    let n = b.len();
    let mut out: Vec<u8> = Vec::new();
    let mut i: usize = 0;
    let mut in_str = false;
    proof {
        assert(b@.subrange(0, n as int) =~= b@);
    }
    while i < n
        invariant
            n == b@.len(),
            i <= n,
            ugly(b@) == out@ + ugly_of(b@.subrange(i as int, n as int), in_str),
        decreases n - i,
    {
        let ghost t = b@.subrange(i as int, n as int);
        let ghost before = out@;
        let c = b[i];
        proof {
            assert(t[0] == c);
            assert(t.subrange(1, t.len() as int) =~= b@.subrange(i + 1, n as int));
        }
        if in_str {
            if c == 0x5c && n - i > 1 {
                proof {
                    assert(t[1] == b@[i + 1]);
                    assert(t.subrange(2, t.len() as int) =~= b@.subrange(i + 2, n as int));
                }
                out.push(c);
                out.push(b[i + 1]);
                proof {
                    let u = ugly_of(b@.subrange(i + 2, n as int), true);
                    assert(before + (seq![c, b@[i + 1]] + u) =~= out@ + u);
                }
                i += 2;
            } else {
                out.push(c);
                proof {
                    let u = ugly_of(b@.subrange(i + 1, n as int), c != 0x22);
                    assert(before + (seq![c] + u) =~= out@ + u);
                }
                in_str = c != 0x22;
                i += 1;
            }
        } else if space(c) {
            i += 1;
        } else {
            out.push(c);
            proof {
                let u = ugly_of(b@.subrange(i + 1, n as int), c == 0x22);
                assert(before + (seq![c] + u) =~= out@ + u);
            }
            in_str = c == 0x22;
            i += 1;
        }
    }
    proof {
        assert(b@.subrange(n as int, n as int) =~= Seq::<u8>::empty());
        assert(out@ + Seq::<u8>::empty() =~= out@);
    }
    out
}

/// Appends a line feed, the prefix, and the indentation of level `depth`.
fn push_line_break(out: &mut Vec<u8>, opts: &PrettyOptions, depth: usize)
    ensures
        final(out)@ == old(out)@ + line_break(opts@, depth as nat),
{
    out.push(0x0a);
    append_all(out, opts.prefix.as_slice());
    let mut k: usize = 0;
    proof {
        assert(out@ =~= old(out)@ + (seq![0x0au8] + opts@.prefix + repeat(opts@.indent, 0)));
    }
    while k < depth
        invariant
            k <= depth,
            out@ == old(out)@ + (seq![0x0au8] + opts@.prefix + repeat(opts@.indent, k as nat)),
        decreases depth - k,
    {
        append_all(out, opts.indent.as_slice());
        k += 1;
        proof {
            assert(out@ =~= old(out)@ + (seq![0x0au8] + opts@.prefix + repeat(
                opts@.indent,
                k as nat,
            )));
        }
    }
}

/// Writes the indented form of `b` into a fresh buffer.
pub fn make_pretty(b: &[u8], opts: &PrettyOptions) -> (r: Vec<u8>)
    ensures
        r@ == pretty(b@, opts@),
{
    let n = b.len();
    let ghost st = opts@;
    let mut out: Vec<u8> = Vec::new();
    append_all(&mut out, opts.prefix.as_slice());
    let mut i: usize = 0;
    let mut depth: usize = 0;
    let mut in_str = false;
    let mut pending = false;
    proof {
        assert(b@.subrange(0, n as int) =~= b@);
        assert(out@ =~= st.prefix);
    }
    while i < n
        invariant
            n == b@.len(),
            i <= n,
            depth <= i,
            st == opts@,
            pretty(b@, st) == out@ + pretty_of(
                b@.subrange(i as int, n as int),
                depth as nat,
                in_str,
                pending,
                st,
            ),
        decreases n - i,
    {
        let ghost t = b@.subrange(i as int, n as int);
        let ghost before = out@;
        let c = b[i];
        proof {
            assert(t[0] == c);
            assert(t.subrange(1, t.len() as int) =~= b@.subrange(i + 1, n as int));
        }
        let ghost rest = b@.subrange(i + 1, n as int);
        if in_str {
            if c == 0x5c && n - i > 1 {
                proof {
                    assert(t[1] == b@[i + 1]);
                    assert(t.subrange(2, t.len() as int) =~= b@.subrange(i + 2, n as int));
                }
                out.push(c);
                out.push(b[i + 1]);
                proof {
                    let u = pretty_of(b@.subrange(i + 2, n as int), depth as nat, true, false, st);
                    assert(before + (seq![c, b@[i + 1]] + u) =~= out@ + u);
                }
                pending = false;
                i += 2;
            } else {
                out.push(c);
                proof {
                    let u = pretty_of(rest, depth as nat, c != 0x22, false, st);
                    assert(before + (seq![c] + u) =~= out@ + u);
                }
                in_str = c != 0x22;
                pending = false;
                i += 1;
            }
        } else if space(c) {
            i += 1;
        } else if c == 0x5b || c == 0x7b {
            if pending {
                push_line_break(&mut out, opts, depth);
            }
            out.push(c);
            proof {
                let lead = if pending { line_break(st, depth as nat) } else { Seq::empty() };
                let u = pretty_of(rest, (depth + 1) as nat, false, true, st);
                assert(before + (lead + seq![c] + u) =~= out@ + u);
            }
            depth += 1;
            pending = true;
            i += 1;
        } else if c == 0x5d || c == 0x7d {
            let d: usize = if depth > 0 { depth - 1 } else { 0 };
            if !pending {
                push_line_break(&mut out, opts, d);
            }
            out.push(c);
            proof {
                let w = if pending { Seq::empty() } else { line_break(st, d as nat) };
                let u = pretty_of(rest, d as nat, false, false, st);
                assert(before + (w + seq![c] + u) =~= out@ + u);
            }
            depth = d;
            pending = false;
            i += 1;
        } else if c == 0x2c {
            out.push(c);
            push_line_break(&mut out, opts, depth);
            proof {
                let u = pretty_of(rest, depth as nat, false, false, st);
                assert(before + (seq![c] + line_break(st, depth as nat) + u) =~= out@ + u);
            }
            pending = false;
            i += 1;
        } else if c == 0x3a {
            out.push(c);
            out.push(0x20);
            proof {
                let u = pretty_of(rest, depth as nat, false, false, st);
                assert(before + (seq![c, 0x20u8] + u) =~= out@ + u);
            }
            pending = false;
            i += 1;
        } else {
            if pending {
                push_line_break(&mut out, opts, depth);
            }
            out.push(c);
            proof {
                let lead = if pending { line_break(st, depth as nat) } else { Seq::empty() };
                let u = pretty_of(rest, depth as nat, c == 0x22, false, st);
                assert(before + (lead + seq![c] + u) =~= out@ + u);
            }
            in_str = c == 0x22;
            pending = false;
            i += 1;
        }
    }
    proof {
        assert(b@.subrange(n as int, n as int) =~= Seq::<u8>::empty());
    }
    let ghost body = out@;
    if !in_str {
        out.push(0x0a);
    }
    proof {
        let u = pretty_of(Seq::<u8>::empty(), depth as nat, in_str, pending, st);
        assert(out@ =~= body + u);
    }
    out
}

} // verus!
