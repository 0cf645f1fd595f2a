//! Content transformers: the built-in trailing-whitespace stripper, and the
//! staging of a transformer chain over one file's bytes.

use vstd::prelude::*;

use crate::config::BuiltinTransformer;
use crate::config::ShellCommandTransformer;
use crate::config::TransformerOptions;
use crate::errors::Error;

verus! {

/// The line-feed byte that separates lines.
pub const NL: u8 = 0x0A;

/// A continuation byte of a multi-byte UTF-8 sequence.
pub open spec fn is_cont(b: u8) -> bool {
    0x80 <= b && b <= 0xBF
}

/// How many bytes a UTF-8 sequence starting with `b0` occupies, or 0 when
/// `b0` cannot start a sequence.
pub open spec fn char_len(b0: u8) -> int {
    if b0 < 0x80 {
        1
    } else if 0xC2 <= b0 && b0 <= 0xDF {
        2
    } else if 0xE0 <= b0 && b0 <= 0xEF {
        3
    } else if 0xF0 <= b0 && b0 <= 0xF4 {
        4
    } else {
        0
    }
}

/// The allowed range of the second byte depends on the first: the encoding
/// forbids overlong forms and surrogate code points.
pub open spec fn second_byte_ok(b0: u8, b1: u8) -> bool {
    if b0 == 0xE0 {
        0xA0 <= b1 && b1 <= 0xBF
    } else if b0 == 0xED {
        0x80 <= b1 && b1 <= 0x9F
    } else if b0 == 0xF0 {
        0x90 <= b1 && b1 <= 0xBF
    } else if b0 == 0xF4 {
        0x80 <= b1 && b1 <= 0x8F
    } else {
        is_cont(b1)
    }
}

/// The first `char_len(s[0])` bytes of `s` form one well-formed UTF-8
/// sequence.
pub open spec fn char_ok(s: Seq<u8>) -> bool {
    let l = char_len(s[0]);
    &&& l >= 1
    &&& s.len() >= l
    &&& l >= 2 ==> second_byte_ok(s[0], s[1])
    &&& l >= 3 ==> is_cont(s[2])
    &&& l >= 4 ==> is_cont(s[3])
}

/// `s` is a well-formed UTF-8 byte sequence.
pub open spec fn is_utf8(s: Seq<u8>) -> bool
    decreases s.len(),
{
    s.len() == 0 || (char_ok(s) && is_utf8(s.skip(char_len(s[0]))))
}

/// Checks whether `data` is well-formed UTF-8.
pub fn utf8_check(data: &[u8]) -> (r: bool)
    ensures
        r == is_utf8(data@),
{
    let n = data.len();
    let mut i: usize = 0;
    proof {
        assert(data@.skip(0) =~= data@);
    }
    while i < n
        invariant
            n == data@.len(),
            i <= n,
            is_utf8(data@) == is_utf8(data@.skip(i as int)),
        decreases n - i,
    {
        let b0 = data[i];
        let l: usize = if b0 < 0x80 {
            1
        } else if 0xC2 <= b0 && b0 <= 0xDF {
            2
        } else if 0xE0 <= b0 && b0 <= 0xEF {
            3
        } else if 0xF0 <= b0 && b0 <= 0xF4 {
            4
        } else {
            proof {
                assert(!char_ok(data@.skip(i as int)));
                assert(!is_utf8(data@.skip(i as int)));
            }
            return false;
        };
        if n - i < l {
            proof {
                assert(!char_ok(data@.skip(i as int)));
            }
            return false;
        }
        if l >= 2 {
            let b1 = data[i + 1];
            let ok = if b0 == 0xE0 {
                0xA0 <= b1 && b1 <= 0xBF
            } else if b0 == 0xED {
                0x80 <= b1 && b1 <= 0x9F
            } else if b0 == 0xF0 {
                0x90 <= b1 && b1 <= 0xBF
            } else if b0 == 0xF4 {
                0x80 <= b1 && b1 <= 0x8F
            } else {
                0x80 <= b1 && b1 <= 0xBF
            };
            if !ok {
                proof {
                    assert(!char_ok(data@.skip(i as int)));
                }
                return false;
            }
        }
        if l >= 3 && !(0x80 <= data[i + 2] && data[i + 2] <= 0xBF) {
            proof {
                assert(!char_ok(data@.skip(i as int)));
            }
            return false;
        }
        if l >= 4 && !(0x80 <= data[i + 3] && data[i + 3] <= 0xBF) {
            proof {
                assert(!char_ok(data@.skip(i as int)));
            }
            return false;
        }
        proof {
            assert(char_ok(data@.skip(i as int)));
            assert(data@.skip(i as int).skip(l as int) =~= data@.skip(i as int + l as int));
        }
        i = i + l;
    }
    proof {
        assert(data@.skip(i as int) =~= Seq::<u8>::empty());
    }
    true
}

/// A one-byte whitespace character: the ASCII members of the Unicode
/// White_Space set, the line feed excepted (it separates lines and is never
/// inside one).
pub open spec fn is_ws1(b: u8) -> bool {
    b == 0x20 || b == 0x09 || b == 0x0B || b == 0x0C || b == 0x0D
}

/// A two-byte whitespace character: the encodings of U+0085 (next line) and
/// U+00A0 (no-break space).
pub open spec fn is_ws2(b0: u8, b1: u8) -> bool {
    b0 == 0xC2 && (b1 == 0x85 || b1 == 0xA0)
}

/// A three-byte whitespace character: the encodings of U+1680, U+2000
/// through U+200A, U+2028, U+2029, U+202F, U+205F and U+3000 — the rest of
/// the Unicode White_Space set.
pub open spec fn is_ws3(b0: u8, b1: u8, b2: u8) -> bool {
    ||| b0 == 0xE1 && b1 == 0x9A && b2 == 0x80
    ||| b0 == 0xE2 && b1 == 0x80 && (is_cont(b2) && b2 <= 0x8A)
    ||| b0 == 0xE2 && b1 == 0x80 && (b2 == 0xA8 || b2 == 0xA9 || b2 == 0xAF)
    ||| b0 == 0xE2 && b1 == 0x81 && b2 == 0x9F
    ||| b0 == 0xE3 && b1 == 0x80 && b2 == 0x80
}

/// How many bytes the whitespace character at the end of `l` occupies, or 0
/// when `l` does not end in one.  On well-formed UTF-8 at most one of the
/// three shapes can match, since neither an ASCII byte nor a lead byte can
/// continue another character.
pub open spec fn ws_suffix_len(l: Seq<u8>) -> int {
    if l.len() >= 3 && is_ws3(l[l.len() - 3], l[l.len() - 2], l[l.len() - 1]) {
        3
    } else if l.len() >= 2 && is_ws2(l[l.len() - 2], l[l.len() - 1]) {
        2
    } else if l.len() >= 1 && is_ws1(l[l.len() - 1]) {
        1
    } else {
        0
    }
}

/// The index of the first line feed at or after `i`, or `s.len()` when none
/// remains.
pub open spec fn find_nl(s: Seq<u8>, i: int) -> int
    decreases s.len() - i,
{
    if i < 0 || i >= s.len() {
        s.len() as int
    } else if s[i] == NL {
        i
    } else {
        find_nl(s, i + 1)
    }
}

/// A line with its trailing whitespace removed: whole whitespace characters
/// are taken off the end, one at a time, until none remains.  On
/// well-formed UTF-8 this removes exactly the trailing characters of the
/// Unicode White_Space set.
pub open spec fn trim_line(l: Seq<u8>) -> Seq<u8>
    decreases l.len(),
{
    let k = ws_suffix_len(l);
    if k > 0 {
        trim_line(l.take(l.len() - k))
    } else {
        l
    }
}

/// What the trailing-whitespace transformer produces: every line of the
/// input, trailing whitespace removed, terminated by a line feed — also the
/// last line, whether or not the input ended with one.  Empty input stays
/// empty.
pub open spec fn strip_spec(s: Seq<u8>) -> Seq<u8>
    decreases s.len(),
    via strip_spec_decreases
{
    if s.len() == 0 {
        Seq::empty()
    } else {
        let j = find_nl(s, 0);
        trim_line(s.subrange(0, j)) + seq![NL] + (if j == s.len() {
            Seq::<u8>::empty()
        } else {
            strip_spec(s.skip(j + 1))
        })
    }
}

#[via_fn]
proof fn strip_spec_decreases(s: Seq<u8>) {
    if s.len() > 0 {
        lemma_find_nl_props(s, 0);
    }
}

proof fn lemma_find_nl_props(s: Seq<u8>, i: int)
    requires
        0 <= i <= s.len(),
    ensures
        i <= find_nl(s, i) <= s.len(),
        find_nl(s, i) < s.len() ==> s[find_nl(s, i)] == NL,
        forall|k: int| i <= k < find_nl(s, i) ==> s[k] != NL,
    decreases s.len() - i,
{
    if i < s.len() && s[i] != NL {
        lemma_find_nl_props(s, i + 1);
    }
}

/// `find_nl` is determined by its characterization: `j` points at the first
/// line feed at or after `i`, or at the end.
proof fn lemma_find_nl_is(s: Seq<u8>, i: int, j: int)
    requires
        0 <= i <= j <= s.len(),
        j < s.len() ==> s[j] == NL,
        forall|k: int| i <= k < j ==> s[k] != NL,
    ensures
        find_nl(s, i) == j,
    decreases j - i,
{
    if i < j {
        lemma_find_nl_is(s, i + 1, j);
    }
}

/// The trimmed line is a prefix of `l`, and nothing more comes off it: it
/// ends in no whitespace character.
proof fn lemma_trim_line_props(l: Seq<u8>)
    ensures
        trim_line(l).len() <= l.len(),
        trim_line(l) == l.take(trim_line(l).len() as int),
        ws_suffix_len(trim_line(l)) == 0,
    decreases l.len(),
{
    let k = ws_suffix_len(l);
    if k > 0 {
        lemma_trim_line_props(l.take(l.len() - k));
        assert(l.take(l.len() - k).take(trim_line(l).len() as int) =~= l.take(
            trim_line(l).len() as int,
        ));
    }
}

/// Strips trailing whitespace from every line of `data`.  The input must be
/// UTF-8 text; other bytes are refused, and the run then stops with a
/// transformer error.
pub fn trailing_whitespace(data: &[u8]) -> (r: Result<Vec<u8>, String>)
    ensures
        is_utf8(data@) ==> (r matches Ok(out) && out@ == strip_spec(data@)),
        !is_utf8(data@) ==> (r matches Err(m) && m@ == "input is not valid UTF-8"@),
{
    if !utf8_check(data) {
        return Err(String::from_str("input is not valid UTF-8"));
    }
    let n = data.len();
    let mut out: Vec<u8> = Vec::new();
    let mut i: usize = 0;
    proof {
        assert(data@.skip(0) =~= data@);
        assert(Seq::<u8>::empty() + strip_spec(data@) =~= strip_spec(data@));
    }
    while i < n
        invariant
            n == data@.len(),
            i <= n,
            strip_spec(data@) == out@ + strip_spec(data@.skip(i as int)),
        decreases n - i,
    {
        let ghost rest = data@.skip(i as int);
        let ghost out0 = out@;
        // Find the end of the current line.
        let mut j: usize = i;
        while j < n && data[j] != NL
            invariant
                n == data@.len(),
                i <= j <= n,
                forall|k: int| i <= k < j ==> data@[k] != NL,
            decreases n - j,
        {
            j = j + 1;
        }
        proof {
            assert forall|k: int| 0 <= k < j - i implies rest[k] != NL by {
                assert(rest[k] == data@[i + k]);
            }
            if j < n {
                assert(rest[j - i] == data@[j as int]);
            }
            lemma_find_nl_is(rest, 0, j - i);
        }
        // Take whitespace characters off the line's end, one at a time.
        let mut c: usize = j;
        proof {
            assert(rest.subrange(0, j - i) =~= data@.subrange(i as int, j as int));
        }
        while ws_suffix(data, i, c) > 0
            invariant
                n == data@.len(),
                i <= c <= j <= n,
                trim_line(data@.subrange(i as int, j as int)) == trim_line(
                    data@.subrange(i as int, c as int),
                ),
            decreases c,
        {
            let k = ws_suffix(data, i, c);
            proof {
                let cur = data@.subrange(i as int, c as int);
                assert(cur.take(cur.len() - ws_suffix_len(cur)) =~= data@.subrange(
                    i as int,
                    c - k,
                ));
            }
            c = c - k;
        }
        proof {
            let cur = data@.subrange(i as int, c as int);
            assert(trim_line(cur) == cur);
            assert(trim_line(rest.subrange(0, j - i)) == data@.subrange(i as int, c as int));
        }
        // Emit the trimmed line and its terminator.
        let mut m: usize = i;
        while m < c
            invariant
                n == data@.len(),
                i <= m <= c <= n,
                out@ == out0 + data@.subrange(i as int, m as int),
            decreases c - m,
        {
            proof {
                assert(data@.subrange(i as int, m + 1) =~= data@.subrange(
                    i as int,
                    m as int,
                ).push(data@[m as int]));
            }
            out.push(data[m]);
            m = m + 1;
        }
        out.push(NL);
        proof {
            assert(out@ =~= out0 + data@.subrange(i as int, c as int) + seq![NL]);
            if j < n {
                assert(rest.skip(j - i + 1) =~= data@.skip(j + 1));
                assert(strip_spec(rest) == trim_line(rest.subrange(0, j - i)) + seq![NL]
                    + strip_spec(data@.skip(j + 1)));
                assert(out0 + strip_spec(rest) =~= out@ + strip_spec(data@.skip(j + 1)));
            } else {
                assert(j == n);
                assert(strip_spec(rest) == trim_line(rest.subrange(0, j - i)) + seq![NL]
                    + Seq::<u8>::empty());
                assert(out0 + strip_spec(rest) =~= out@);
            }
            assert(data@.skip(n as int) =~= Seq::<u8>::empty());
            assert(out@ + strip_spec(Seq::<u8>::empty()) =~= out@);
        }
        i = if j < n {
            j + 1
        } else {
            n
        };
    }
    proof {
        assert(data@.skip(n as int) =~= Seq::<u8>::empty());
        assert(out@ + strip_spec(Seq::<u8>::empty()) =~= out@);
    }
    Ok(out)
}

/// The length of the whitespace character, if any, at the end of
/// `data[i..c]`.
fn ws_suffix(data: &[u8], i: usize, c: usize) -> (k: usize)
    requires
        i <= c <= data@.len(),
    ensures
        k == ws_suffix_len(data@.subrange(i as int, c as int)),
        k <= c - i,
{
    proof {
        let sub = data@.subrange(i as int, c as int);
        if c - i >= 1 {
            assert(sub[sub.len() - 1] == data@[c - 1]);
        }
        if c - i >= 2 {
            assert(sub[sub.len() - 2] == data@[c - 2]);
        }
        if c - i >= 3 {
            assert(sub[sub.len() - 3] == data@[c - 3]);
        }
    }
    if c - i >= 3 && is_ws3_bytes(data[c - 3], data[c - 2], data[c - 1]) {
        3
    } else if c - i >= 2 && is_ws2_bytes(data[c - 2], data[c - 1]) {
        2
    } else if c - i >= 1 && is_ws1_byte(data[c - 1]) {
        1
    } else {
        0
    }
}

fn is_ws1_byte(b: u8) -> (r: bool)
    ensures
        r == is_ws1(b),
{
    b == 0x20 || b == 0x09 || b == 0x0B || b == 0x0C || b == 0x0D
}

fn is_ws2_bytes(b0: u8, b1: u8) -> (r: bool)
    ensures
        r == is_ws2(b0, b1),
{
    b0 == 0xC2 && (b1 == 0x85 || b1 == 0xA0)
}

fn is_ws3_bytes(b0: u8, b1: u8, b2: u8) -> (r: bool)
    ensures
        r == is_ws3(b0, b1, b2),
{
    (b0 == 0xE1 && b1 == 0x9A && b2 == 0x80) || (b0 == 0xE2 && b1 == 0x80 && (0x80 <= b2 && b2
        <= 0x8A)) || (b0 == 0xE2 && b1 == 0x80 && (b2 == 0xA8 || b2 == 0xA9 || b2 == 0xAF)) || (b0
        == 0xE2 && b1 == 0x81 && b2 == 0x9F) || (b0 == 0xE3 && b1 == 0x80 && b2 == 0x80)
}

/// In well-formed UTF-8 a byte that continues no character starts one, so
/// its position is a character boundary and the text splits there.
proof fn lemma_utf8_split(s: Seq<u8>, j: int)
    requires
        is_utf8(s),
        0 <= j < s.len(),
        !is_cont(s[j]),
    ensures
        is_utf8(s.subrange(0, j)),
        is_utf8(s.skip(j)),
    decreases s.len(),
{
    let l = char_len(s[0]);
    if j == 0 {
        assert(s.subrange(0, 0) =~= Seq::<u8>::empty());
        assert(s.skip(0) =~= s);
    } else if j < l {
        assert(is_cont(s[j]));
    } else {
        let rest = s.skip(l);
        assert(rest[j - l] == s[j]);
        lemma_utf8_split(rest, j - l);
        assert(s.skip(j) =~= rest.skip(j - l));
        let sub = s.subrange(0, j);
        assert(forall|k: int| 0 <= k < j ==> sub[k] == s[k]);
        assert(char_ok(sub));
        assert(sub.skip(l) =~= rest.subrange(0, j - l));
    }
}

proof fn lemma_utf8_concat(a: Seq<u8>, b: Seq<u8>)
    requires
        is_utf8(a),
        is_utf8(b),
    ensures
        is_utf8(a + b),
    decreases a.len(),
{
    if a.len() == 0 {
        assert(a + b =~= b);
    } else {
        let l = char_len(a[0]);
        assert(forall|k: int| 0 <= k < a.len() ==> (a + b)[k] == a[k]);
        assert(char_ok(a + b));
        lemma_utf8_concat(a.skip(l), b);
        assert((a + b).skip(l) =~= a.skip(l) + b);
    }
}

proof fn lemma_trim_line_utf8(l: Seq<u8>)
    requires
        is_utf8(l),
    ensures
        is_utf8(trim_line(l)),
    decreases l.len(),
{
    let k = ws_suffix_len(l);
    if k > 0 {
        // The removed whitespace character starts with an ASCII byte or a
        // lead byte, never a continuation byte, so it comes off at a
        // character boundary.
        assert(!is_cont(l[l.len() - k]));
        lemma_utf8_split(l, l.len() - k);
        assert(l.take(l.len() - k) =~= l.subrange(0, l.len() - k));
        lemma_trim_line_utf8(l.take(l.len() - k));
    }
}

/// Stripping trailing whitespace keeps the text well-formed UTF-8: whole
/// characters are removed, always at character boundaries.
pub proof fn lemma_strip_preserves_utf8(s: Seq<u8>)
    requires
        is_utf8(s),
    ensures
        is_utf8(strip_spec(s)),
    decreases s.len(),
{
    if s.len() > 0 {
        let j = find_nl(s, 0);
        lemma_find_nl_props(s, 0);
        let line = s.subrange(0, j);
        if j < s.len() {
            lemma_utf8_split(s, j);
            assert(is_utf8(line));
        } else {
            assert(line =~= s);
        }
        lemma_trim_line_utf8(line);
        let nl_seq = seq![NL];
        assert(nl_seq.skip(1) =~= Seq::<u8>::empty());
        assert(char_ok(nl_seq));
        assert(is_utf8(Seq::<u8>::empty()));
        assert(is_utf8(nl_seq));
        if j < s.len() {
            let after = s.skip(j);
            assert(after[0] == NL);
            assert(char_ok(after));
            assert(is_utf8(after.skip(1)));
            assert(after.skip(1) =~= s.skip(j + 1));
            lemma_strip_preserves_utf8(s.skip(j + 1));
            lemma_utf8_concat(nl_seq, strip_spec(s.skip(j + 1)));
            lemma_utf8_concat(trim_line(line), nl_seq + strip_spec(s.skip(j + 1)));
            assert(trim_line(line) + (nl_seq + strip_spec(s.skip(j + 1))) =~= strip_spec(s));
        } else {
            lemma_utf8_concat(trim_line(line), nl_seq);
            assert(trim_line(line) + nl_seq =~= strip_spec(s));
        }
    }
}

/// Stripping trailing whitespace is idempotent: a second pass changes
/// nothing.
pub proof fn lemma_strip_idempotent(s: Seq<u8>)
    ensures
        strip_spec(strip_spec(s)) == strip_spec(s),
    decreases s.len(),
{
    if s.len() > 0 {
        let j = find_nl(s, 0);
        lemma_find_nl_props(s, 0);
        let line = s.subrange(0, j);
        let t = trim_line(line);
        lemma_trim_line_props(line);
        let r = if j == s.len() {
            Seq::<u8>::empty()
        } else {
            strip_spec(s.skip(j + 1))
        };
        let out = strip_spec(s);
        assert(out == t + seq![NL] + r);
        // The first line feed of `out` sits right after the trimmed line.
        assert forall|k: int| 0 <= k < t.len() implies out[k] != NL by {
            assert(out[k] == t[k]);
            assert(t[k] == line[k]);
        }
        assert(out[t.len() as int] == NL);
        lemma_find_nl_is(out, 0, t.len() as int);
        // The first line of `out` is the trimmed line, already trimmed.
        assert(out.subrange(0, t.len() as int) =~= t);
        assert(ws_suffix_len(t) == 0);
        assert(trim_line(t) == t);
        // The rest of `out` is the stripped rest, itself a fixed point.
        assert(out.skip(t.len() as int + 1) =~= r);
        if j < s.len() {
            lemma_strip_idempotent(s.skip(j + 1));
        }
        if t.len() + 1 == out.len() {
            assert(r =~= Seq::<u8>::empty());
            assert(strip_spec(Seq::<u8>::empty()) == Seq::<u8>::empty());
            assert(strip_spec(out) == trim_line(t) + seq![NL] + Seq::<u8>::empty());
            assert(strip_spec(out) =~= out);
        } else {
            assert(strip_spec(out) == trim_line(t) + seq![NL] + strip_spec(r));
            if j == s.len() {
                assert(r =~= Seq::<u8>::empty());
                assert(r.len() == 0);
                assert(false);
            }
            assert(strip_spec(r) == r);
            assert(strip_spec(out) =~= out);
        }
    }
}

/// What a built-in transformer returns on `input`.
pub open spec fn spec_builtin(b: BuiltinTransformer, input: Seq<u8>) -> Result<Seq<u8>, ()> {
    match b {
        BuiltinTransformer::TrailingWhitespace => if is_utf8(input) {
            Ok(strip_spec(input))
        } else {
            Err(())
        },
    }
}

/// How far a chain gets on its own: built-in stages run in list order, each
/// stage reading the previous stage's output, until the chain is done, a
/// stage fails, or an external stage needs a process run.
pub enum ChainOutcome {
    /// All remaining stages were built-in and succeeded.
    Complete(Seq<u8>),
    /// Stage `step` is an external process; it must be run on `input`.
    Await { step: int, input: Seq<u8> },
    /// A built-in stage failed.
    Failed,
}

pub open spec fn spec_chain(chain: Seq<TransformerOptions>, from: int, input: Seq<u8>) -> ChainOutcome
    decreases chain.len() - from,
{
    if from < 0 || from >= chain.len() {
        ChainOutcome::Complete(input)
    } else {
        match chain[from] {
            TransformerOptions::Builtin(b) => match spec_builtin(b, input) {
                Ok(out) => spec_chain(chain, from + 1, out),
                Err(_) => ChainOutcome::Failed,
            },
            TransformerOptions::RawCommand(_) => (ChainOutcome::Await { step: from, input }),
        }
    }
}

/// The run-time counterpart of [`ChainOutcome`].
pub enum ChainProgress {
    Complete(Vec<u8>),
    Await { step: usize, input: Vec<u8> },
    Failed(Error),
}

pub open spec fn spec_progress(p: ChainProgress) -> ChainOutcome {
    match p {
        ChainProgress::Complete(v) => ChainOutcome::Complete(v@),
        ChainProgress::Await { step, input } => (ChainOutcome::Await {
            step: step as int,
            input: input@,
        }),
        ChainProgress::Failed(_) => ChainOutcome::Failed,
    }
}

/// Runs the chain from stage `from` on `input` as far as it can go without
/// an external process: strictly in list order, each stage seeing only the
/// previous stage's output.  Stops at the first external stage, which the
/// caller must run before resuming at the stage after it.
pub fn advance_chain(chain: &Vec<TransformerOptions>, from: usize, input: Vec<u8>) -> (r:
    ChainProgress)
    ensures
        spec_progress(r) == spec_chain(chain@, from as int, input@),
        r matches ChainProgress::Failed(e) ==> (e matches Error::TransformerError(m) && m@
            == "trailing whitespace: "@ + "input is not valid UTF-8"@),
        r matches ChainProgress::Await { step, .. } ==> from <= step < chain@.len()
            && chain@[step as int] is RawCommand,
{
    let mut cur = input;
    let mut k = from;
    while k < chain.len()
        invariant
            from <= k,
            spec_chain(chain@, from as int, input@) == spec_chain(chain@, k as int, cur@),
        decreases chain@.len() - k,
    {
        match &chain[k] {
            TransformerOptions::Builtin(b) => {
                match b {
                    BuiltinTransformer::TrailingWhitespace => {
                        match trailing_whitespace(cur.as_slice()) {
                            Ok(next) => {
                                cur = next;
                            },
                            Err(m) => {
                                return ChainProgress::Failed(
                                    Error::TransformerError(
                                        String::from_str("trailing whitespace: ").concat(
                                            m.as_str(),
                                        ),
                                    ),
                                );
                            },
                        }
                    },
                }
            },
            TransformerOptions::RawCommand(_) => {
                return ChainProgress::Await { step: k, input: cur };
            },
        }
        k = k + 1;
    }
    ChainProgress::Complete(cur)
}

/// A built-in stage that succeeded produced a fixed point: run again on its
/// own output, it returns that output unchanged.
pub proof fn lemma_builtin_idempotent(b: BuiltinTransformer, x: Seq<u8>)
    requires
        spec_builtin(b, x) is Ok,
    ensures
        spec_builtin(b, spec_builtin(b, x)->Ok_0) == Ok::<Seq<u8>, ()>(spec_builtin(b, x)->Ok_0),
{
    match b {
        BuiltinTransformer::TrailingWhitespace => {
            lemma_strip_preserves_utf8(x);
            lemma_strip_idempotent(x);
        },
    }
}

proof fn lemma_chain_complete_props(chain: Seq<TransformerOptions>, from: int, x: Seq<u8>)
    requires
        0 <= from,
        spec_chain(chain, from, x) is Complete,
    ensures
        forall|k: int| from <= k < chain.len() ==> #[trigger] chain[k] is Builtin,
        from < chain.len() ==> is_utf8(spec_chain(chain, from, x)->Complete_0) && strip_spec(
            spec_chain(chain, from, x)->Complete_0,
        ) == spec_chain(chain, from, x)->Complete_0,
    decreases chain.len() - from,
{
    if from < chain.len() {
        match chain[from] {
            TransformerOptions::Builtin(b) => {
                match spec_builtin(b, x) {
                    Ok(out) => {
                        lemma_chain_complete_props(chain, from + 1, out);
                        if from + 1 >= chain.len() {
                            match b {
                                BuiltinTransformer::TrailingWhitespace => {
                                    lemma_strip_preserves_utf8(x);
                                    lemma_strip_idempotent(x);
                                },
                            }
                        }
                    },
                    Err(_) => {
                    },
                }
            },
            TransformerOptions::RawCommand(_) => {
            },
        }
    }
}

proof fn lemma_chain_fixed_runs(chain: Seq<TransformerOptions>, from: int, y: Seq<u8>)
    requires
        0 <= from,
        forall|k: int| from <= k < chain.len() ==> #[trigger] chain[k] is Builtin,
        is_utf8(y),
        strip_spec(y) == y,
    ensures
        spec_chain(chain, from, y) == ChainOutcome::Complete(y),
    decreases chain.len() - from,
{
    if from < chain.len() {
        match chain[from] {
            TransformerOptions::Builtin(b) => {
                match b {
                    BuiltinTransformer::TrailingWhitespace => {
                        assert(spec_builtin(b, y) == Ok::<Seq<u8>, ()>(y));
                    },
                }
                lemma_chain_fixed_runs(chain, from + 1, y);
            },
            TransformerOptions::RawCommand(_) => {
            },
        }
    }
}

/// A chain that completed in-process is idempotent: run again on its own
/// output, it completes with that output unchanged.
pub proof fn lemma_chain_idempotent(chain: Seq<TransformerOptions>, x: Seq<u8>)
    requires
        spec_chain(chain, 0, x) is Complete,
    ensures
        spec_chain(chain, 0, spec_chain(chain, 0, x)->Complete_0) == ChainOutcome::Complete(
            spec_chain(chain, 0, x)->Complete_0,
        ),
{
    lemma_chain_complete_props(chain, 0, x);
    if chain.len() > 0 {
        lemma_chain_fixed_runs(chain, 0, spec_chain(chain, 0, x)->Complete_0);
    }
}

/// A two-stage chain composes in order: the second stage reads the first
/// stage's output, so the chain's result is the second applied to the first.
pub proof fn lemma_pipeline_order(ba: BuiltinTransformer, bb: BuiltinTransformer, x: Seq<u8>)
    requires
        spec_builtin(ba, x) is Ok,
        spec_builtin(bb, spec_builtin(ba, x)->Ok_0) is Ok,
    ensures
        spec_chain(
            seq![TransformerOptions::Builtin(ba), TransformerOptions::Builtin(bb)],
            0,
            x,
        ) == ChainOutcome::Complete(spec_builtin(bb, spec_builtin(ba, x)->Ok_0)->Ok_0),
{
    let chain = seq![TransformerOptions::Builtin(ba), TransformerOptions::Builtin(bb)];
    let y = spec_builtin(ba, x)->Ok_0;
    let z = spec_builtin(bb, y)->Ok_0;
    assert(spec_chain(chain, 2, z) == ChainOutcome::Complete(z));
    assert(spec_chain(chain, 1, y) == spec_chain(chain, 2, z));
    assert(spec_chain(chain, 0, x) == spec_chain(chain, 1, y));
}

/// A built-in stage followed by an external stage: the external process is
/// handed exactly the built-in stage's output, never the original input.
pub proof fn lemma_stage_feeds_next(ba: BuiltinTransformer, c: ShellCommandTransformer, x: Seq<u8>)
    requires
        spec_builtin(ba, x) is Ok,
    ensures
        spec_chain(
            seq![TransformerOptions::Builtin(ba), TransformerOptions::RawCommand(c)],
            0,
            x,
        ) == (ChainOutcome::Await { step: 1, input: spec_builtin(ba, x)->Ok_0 }),
{
    let chain = seq![TransformerOptions::Builtin(ba), TransformerOptions::RawCommand(c)];
    let y = spec_builtin(ba, x)->Ok_0;
    assert(spec_chain(chain, 1, y) == (ChainOutcome::Await { step: 1, input: y }));
    assert(spec_chain(chain, 0, x) == spec_chain(chain, 1, y));
}

/// What an external transformer run means for the chain: the captured
/// standard output on a successful exit, a transformer error naming the
/// program on any other outcome.
pub fn external_outcome(exited_ok: bool, stdout: Vec<u8>, program: &str) -> (r: Result<
    Vec<u8>,
    Error,
>)
    ensures
        exited_ok ==> (r matches Ok(v) && v@ == stdout@),
        !exited_ok ==> (r matches Err(e) && e matches Error::TransformerError(m) && m@
            == "transformer produced a nonzero exit code: "@ + program@),
{
    if exited_ok {
        Ok(stdout)
    } else {
        Err(
            Error::TransformerError(
                String::from_str("transformer produced a nonzero exit code: ").concat(program),
            ),
        )
    }
}

} // verus!
