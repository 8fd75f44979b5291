//! Character-sequence helpers shared by the placeholder resolver and the
//! persisted-snapshot format: substring search, leftmost-first replacement,
//! and the escaping of quoted string values.

use vstd::prelude::*;

use crate::digits::push_char;

verus! {

/// `pat` occurs in `s` at position `i`.
pub open spec fn contains_at(s: Seq<char>, pat: Seq<char>, i: int) -> bool {
    0 <= i && i + pat.len() <= s.len() && s.subrange(i, i + pat.len()) == pat
}

/// `pat` occurs somewhere in `s`.
pub open spec fn contains_sub(s: Seq<char>, pat: Seq<char>) -> bool {
    exists|i: int| contains_at(s, pat, i)
}

/// `c` occurs in `s`.
pub open spec fn contains_char(s: Seq<char>, c: char) -> bool {
    exists|i: int| 0 <= i < s.len() && s[i] == c
}

/// `s` with every occurrence of `pat` replaced by `rep`, scanning left to
/// right and never rescanning replaced text.
pub open spec fn replace_spec(s: Seq<char>, pat: Seq<char>, rep: Seq<char>) -> Seq<char>
    recommends
        pat.len() >= 1,
    decreases s.len(),
{
    if pat.len() == 0 || s.len() < pat.len() {
        s
    } else if s.subrange(0, pat.len() as int) == pat {
        rep + replace_spec(s.subrange(pat.len() as int, s.len() as int), pat, rep)
    } else {
        seq![s[0]] + replace_spec(s.subrange(1, s.len() as int), pat, rep)
    }
}

/// A string with no occurrence of the pattern is returned unchanged.
pub proof fn lemma_replace_absent(s: Seq<char>, pat: Seq<char>, rep: Seq<char>)
    requires
        pat.len() >= 1,
        !contains_sub(s, pat),
    ensures
        replace_spec(s, pat, rep) == s,
    decreases s.len(),
{
    if s.len() >= pat.len() {
        assert(!contains_at(s, pat, 0));
        let tail = s.subrange(1, s.len() as int);
        assert forall|i: int| !contains_at(tail, pat, i) by {
            if contains_at(tail, pat, i) {
                assert(s.subrange(i + 1, i + 1 + pat.len()) =~= tail.subrange(i, i + pat.len()));
                assert(contains_at(s, pat, i + 1));
            }
        }
        lemma_replace_absent(tail, pat, rep);
        assert(replace_spec(s, pat, rep) =~= s);
    }
}

/// True when `pat` occurs in `s` at position `i` (checked character by
/// character).
pub fn match_at(s: &str, pat: &str, i: usize, s_len: usize, pat_len: usize) -> (r: bool)
    requires
        s_len == s@.len(),
        pat_len == pat@.len(),
        i + pat_len <= s_len,
    ensures
        r == contains_at(s@, pat@, i as int),
{
    let mut j: usize = 0;
    while j < pat_len
        invariant
            j <= pat_len,
            s_len == s@.len(),
            pat_len == pat@.len(),
            i + pat_len <= s_len,
            forall|k: int| 0 <= k < j ==> s@[i + k] == pat@[k],
        decreases pat_len - j,
    {
        if s.get_char(i + j) != pat.get_char(j) {
            proof {
                if contains_at(s@, pat@, i as int) {
                    let ss = s@.subrange(i as int, i as int + pat@.len() as int);
                    assert(ss[j as int] == s@[i as int + j as int]);
                    assert(false);
                }
            }
            return false;
        }
        j = j + 1;
    }
    proof {
        assert(s@.subrange(i as int, i as int + pat@.len() as int) =~= pat@);
    }
    true
}

/// True when `pat` occurs anywhere in `s`.
pub fn contains(s: &str, pat: &str) -> (r: bool)
    ensures
        r == contains_sub(s@, pat@),
{
    let s_len = s.unicode_len();
    let pat_len = pat.unicode_len();
    if pat_len > s_len {
        proof {
            assert forall|i: int| !contains_at(s@, pat@, i) by {}
        }
        return false;
    }
    if pat_len == 0 {
        proof {
            assert(s@.subrange(0, 0) =~= pat@);
            assert(contains_at(s@, pat@, 0));
        }
        return true;
    }
    let mut i: usize = 0;
    while i <= s_len - pat_len
        invariant
            s_len == s@.len(),
            pat_len == pat@.len(),
            1 <= pat_len <= s_len,
            i <= s_len - pat_len + 1,
            forall|k: int| 0 <= k < i ==> !contains_at(s@, pat@, k),
        decreases s_len - i,
    {
        if match_at(s, pat, i, s_len, pat_len) {
            return true;
        }
        i = i + 1;
    }
    proof {
        assert forall|k: int| !contains_at(s@, pat@, k) by {
            if contains_at(s@, pat@, k) {
                assert(0 <= k < i);
            }
        }
    }
    false
}

/// True when the character `c` occurs in `s`.
pub fn str_has_char(s: &str, c: char) -> (r: bool)
    ensures
        r == contains_char(s@, c),
{
    let s_len = s.unicode_len();
    let mut i: usize = 0;
    while i < s_len
        invariant
            s_len == s@.len(),
            i <= s_len,
            forall|k: int| 0 <= k < i ==> s@[k] != c,
        decreases s_len - i,
    {
        if s.get_char(i) == c {
            return true;
        }
        i = i + 1;
    }
    false
}

/// `s` with every occurrence of `pat` replaced by `rep`, leftmost first.
pub fn replace_all(s: &str, pat: &str, rep: &str) -> (out: String)
    requires
        pat@.len() >= 1,
    ensures
        out@ == replace_spec(s@, pat@, rep@),
{
    let s_len = s.unicode_len();
    let pat_len = pat.unicode_len();
    let mut out = String::new();
    let mut i: usize = 0;
    proof {
        assert(s@.subrange(0, s@.len() as int) =~= s@);
        assert(out@ + replace_spec(s@, pat@, rep@) =~= replace_spec(s@, pat@, rep@));
    }
    while pat_len <= s_len && i <= s_len - pat_len
        invariant
            s_len == s@.len(),
            pat_len == pat@.len(),
            pat_len >= 1,
            i <= s_len,
            replace_spec(s@, pat@, rep@) == out@ + replace_spec(
                s@.subrange(i as int, s@.len() as int),
                pat@,
                rep@,
            ),
        decreases s_len - i,
    {
        let ghost tail = s@.subrange(i as int, s@.len() as int);
        if match_at(s, pat, i, s_len, pat_len) {
            proof {
                assert(tail.subrange(0, pat@.len() as int) =~= s@.subrange(
                    i as int,
                    i + pat@.len(),
                ));
                assert(tail.subrange(pat@.len() as int, tail.len() as int) =~= s@.subrange(
                    i + pat@.len(),
                    s@.len() as int,
                ));
                assert(replace_spec(tail, pat@, rep@) == rep@ + replace_spec(
                    s@.subrange(i + pat@.len(), s@.len() as int),
                    pat@,
                    rep@,
                ));
            }
            out.append(rep);
            i = i + pat_len;
        } else {
            proof {
                assert(tail.subrange(0, pat@.len() as int) =~= s@.subrange(
                    i as int,
                    i + pat@.len(),
                ));
                assert(tail.subrange(1, tail.len() as int) =~= s@.subrange(
                    i + 1,
                    s@.len() as int,
                ));
                assert(replace_spec(tail, pat@, rep@) == seq![s@[i as int]] + replace_spec(
                    s@.subrange(i + 1, s@.len() as int),
                    pat@,
                    rep@,
                ));
                assert((out@ + seq![s@[i as int]]) + replace_spec(
                    s@.subrange(i + 1, s@.len() as int),
                    pat@,
                    rep@,
                ) =~= out@ + (seq![s@[i as int]] + replace_spec(
                    s@.subrange(i + 1, s@.len() as int),
                    pat@,
                    rep@,
                )));
            }
            let c = s.get_char(i);
            let ghost out0 = out@;
            push_char(&mut out, c);
            proof {
                assert(out@ =~= out0 + seq![s@[i as int]]);
            }
            i = i + 1;
        }
    }
    while i < s_len
        invariant
            s_len == s@.len(),
            pat_len == pat@.len(),
            pat_len >= 1,
            i <= s_len,
            s_len - i < pat_len,
            replace_spec(s@, pat@, rep@) == out@ + replace_spec(
                s@.subrange(i as int, s@.len() as int),
                pat@,
                rep@,
            ),
        decreases s_len - i,
    {
        let ghost tail = s@.subrange(i as int, s@.len() as int);
        proof {
            assert(replace_spec(tail, pat@, rep@) == tail);
            assert(s@.subrange(i + 1, s@.len() as int) =~= tail.subrange(1, tail.len() as int));
            assert(replace_spec(s@.subrange(i + 1, s@.len() as int), pat@, rep@) == s@.subrange(
                i + 1,
                s@.len() as int,
            ));
            assert(out@ + tail =~= (out@ + seq![s@[i as int]]) + s@.subrange(
                i + 1,
                s@.len() as int,
            ));
        }
        let c = s.get_char(i);
        let ghost out0 = out@;
        push_char(&mut out, c);
        proof {
            assert(out@ =~= out0 + seq![s@[i as int]]);
        }
        i = i + 1;
    }
    proof {
        assert(s@.subrange(i as int, s@.len() as int) =~= Seq::<char>::empty());
        assert(replace_spec(Seq::<char>::empty(), pat@, rep@) == Seq::<char>::empty());
        assert(out@ + Seq::<char>::empty() =~= out@);
    }
    out
}

/// Replacement grows the text by at most a factor of two whenever the
/// replacement is at most twice the pattern: a match consumes the whole
/// pattern, any other character passes through unchanged.
pub proof fn lemma_replace_len(s: Seq<char>, pat: Seq<char>, rep: Seq<char>)
    requires
        pat.len() >= 1,
        rep.len() <= 2 * pat.len(),
    ensures
        replace_spec(s, pat, rep).len() <= 2 * s.len(),
    decreases s.len(),
{
    if s.len() >= pat.len() {
        if s.subrange(0, pat.len() as int) == pat {
            lemma_replace_len(s.subrange(pat.len() as int, s.len() as int), pat, rep);
        } else {
            lemma_replace_len(s.subrange(1, s.len() as int), pat, rep);
        }
    }
}

/// A character sequence encodes to at most four UTF-8 bytes per
/// character.
pub proof fn lemma_encode_utf8_len(s: Seq<char>)
    ensures
        vstd::utf8::encode_utf8(s).len() <= 4 * s.len(),
    decreases s.len(),
{
    if s.len() > 0 {
        lemma_encode_utf8_len(s.drop_first());
        assert(vstd::utf8::encode_scalar(s[0] as u32).len() <= 4);
    }
}

/// The escaped form of one character inside a quoted value: backslash,
/// quote, newline and carriage return become two-character escapes, any
/// other character stands as itself.
pub open spec fn esc_char(c: char) -> Seq<char> {
    if c == '\\' {
        seq!['\\', '\\']
    } else if c == '"' {
        seq!['\\', '"']
    } else if c == '\n' {
        seq!['\\', 'n']
    } else if c == '\r' {
        seq!['\\', 'r']
    } else {
        seq![c]
    }
}

/// The escaped form of a whole value.
pub open spec fn escape_spec(s: Seq<char>) -> Seq<char>
    decreases s.len(),
{
    if s.len() == 0 {
        Seq::empty()
    } else {
        esc_char(s[0]) + escape_spec(s.skip(1))
    }
}

/// Reads an escaped value back. Rejects a trailing backslash, an unknown
/// escape, and any bare quote, newline or carriage return.
pub open spec fn unescape_spec(s: Seq<char>) -> Option<Seq<char>>
    decreases s.len(),
{
    if s.len() == 0 {
        Some(Seq::empty())
    } else if s[0] == '\\' {
        if s.len() < 2 {
            None
        } else {
            let c = s[1];
            let dec = if c == '\\' {
                Some('\\')
            } else if c == '"' {
                Some('"')
            } else if c == 'n' {
                Some('\n')
            } else if c == 'r' {
                Some('\r')
            } else {
                None
            };
            match dec {
                Some(d) => match unescape_spec(s.skip(2)) {
                    Some(t) => Some(seq![d] + t),
                    None => None,
                },
                None => None,
            }
        }
    } else if s[0] == '"' || s[0] == '\n' || s[0] == '\r' {
        None
    } else {
        match unescape_spec(s.skip(1)) {
            Some(t) => Some(seq![s[0]] + t),
            None => None,
        }
    }
}

/// Escaping then unescaping gives the value back: the escaped form is
/// unambiguous.
pub proof fn lemma_unescape_escape(s: Seq<char>)
    ensures
        unescape_spec(escape_spec(s)) == Some(s),
    decreases s.len(),
{
    if s.len() > 0 {
        lemma_unescape_escape(s.skip(1));
        let e = escape_spec(s);
        let c = s[0];
        assert(e == esc_char(c) + escape_spec(s.skip(1)));
        if c == '\\' || c == '"' || c == '\n' || c == '\r' {
            assert(e.len() >= 2);
            assert(e[0] == '\\');
            assert(e.skip(2) =~= escape_spec(s.skip(1)));
            assert(seq![c] + s.skip(1) =~= s);
        } else {
            assert(e[0] == c);
            assert(e.skip(1) =~= escape_spec(s.skip(1)));
            assert(seq![c] + s.skip(1) =~= s);
        }
    }
}

/// An escaped value never contains a newline, so it stays on one line.
pub proof fn lemma_escape_no_newline(s: Seq<char>)
    ensures
        !contains_char(escape_spec(s), '\n'),
    decreases s.len(),
{
    if s.len() > 0 {
        lemma_escape_no_newline(s.skip(1));
        let e = escape_spec(s);
        assert forall|i: int| 0 <= i < e.len() implies e[i] != '\n' by {
            let head = esc_char(s[0]);
            if i >= head.len() {
                let t = escape_spec(s.skip(1));
                assert(e[i] == t[i - head.len()]);
                assert(!contains_char(t, '\n'));
            }
        }
    }
}

/// Appends the escaped form of `s` to `out`.
pub fn append_escaped(out: &mut String, s: &str)
    ensures
        final(out)@ == old(out)@ + escape_spec(s@),
{
    let n = s.unicode_len();
    let mut i: usize = 0;
    proof {
        assert(out@ + escape_spec(s@.take(0)) =~= out@);
    }
    while i < n
        invariant
            n == s@.len(),
            i <= n,
            out@ == old(out)@ + escape_spec(s@.take(i as int)),
        decreases n - i,
    {
        let c = s.get_char(i);
        proof {
            lemma_escape_snoc(s@.take(i as int), s@[i as int]);
            assert(s@.take(i as int).push(s@[i as int]) =~= s@.take(i as int + 1));
        }
        let ghost out0 = out@;
        if c == '\\' {
            push_char(out, '\\');
            push_char(out, '\\');
        } else if c == '"' {
            push_char(out, '\\');
            push_char(out, '"');
        } else if c == '\n' {
            push_char(out, '\\');
            push_char(out, 'n');
        } else if c == '\r' {
            push_char(out, '\\');
            push_char(out, 'r');
        } else {
            push_char(out, c);
        }
        proof {
            assert(out@ =~= out0 + esc_char(s@[i as int]));
            assert(out@ =~= old(out)@ + (escape_spec(s@.take(i as int)) + esc_char(s@[i as int])));
        }
        i = i + 1;
    }
    proof {
        assert(s@.take(n as int) =~= s@);
    }
}

/// Escaping one more character appends its escaped form.
pub proof fn lemma_escape_snoc(s: Seq<char>, c: char)
    ensures
        escape_spec(s.push(c)) == escape_spec(s) + esc_char(c),
    decreases s.len(),
{
    if s.len() == 0 {
        assert(s.push(c) =~= seq![c]);
        assert(s.push(c).skip(1) =~= Seq::<char>::empty());
        assert(escape_spec(Seq::<char>::empty()) =~= Seq::<char>::empty());
        assert(escape_spec(s.push(c)) == esc_char(s.push(c)[0]) + escape_spec(s.push(c).skip(1)));
        assert(escape_spec(s.push(c)) =~= esc_char(c));
        assert(escape_spec(s) + esc_char(c) =~= esc_char(c));
    } else {
        lemma_escape_snoc(s.skip(1), c);
        assert(s.push(c).skip(1) =~= s.skip(1).push(c));
        assert(escape_spec(s.push(c)) == esc_char(s[0]) + escape_spec(s.skip(1).push(c)));
        assert(esc_char(s[0]) + (escape_spec(s.skip(1)) + esc_char(c)) =~= (esc_char(s[0])
            + escape_spec(s.skip(1))) + esc_char(c));
    }
}

/// Reads the escaped value between `from` and `to` in `s` back into plain
/// text, or `None` when the span is not a well-formed escaped value.
pub fn unescape_range(s: &str, from: usize, to: usize) -> (r: Option<String>)
    requires
        from <= to <= s@.len(),
    ensures
        match r {
            Some(v) => unescape_spec(s@.subrange(from as int, to as int)) == Some(v@),
            None => unescape_spec(s@.subrange(from as int, to as int)) is None,
        },
{
    let ghost span = s@.subrange(from as int, to as int);
    let mut out = String::new();
    let mut i: usize = from;
    while i < to
        invariant_except_break
            from <= i <= to <= s@.len(),
            span == s@.subrange(from as int, to as int),
            unescape_spec(span) == match unescape_spec(
                s@.subrange(i as int, to as int),
            ) {
                Some(t) => Some(out@ + t),
                None => None::<Seq<char>>,
            },
        ensures
            i == to,
            unescape_spec(span) == match unescape_spec(
                s@.subrange(i as int, to as int),
            ) {
                Some(t) => Some(out@ + t),
                None => None::<Seq<char>>,
            },
        decreases to - i,
    {
        let ghost rest = s@.subrange(i as int, to as int);
        let c = s.get_char(i);
        proof {
            assert(rest[0] == s@[i as int]);
        }
        if c == '\\' {
            if i + 1 >= to {
                proof {
                    assert(rest.len() < 2);
                }
                return None;
            }
            let d = s.get_char(i + 1);
            proof {
                assert(rest[1] == s@[i + 1]);
            }
            let dec: char = if d == '\\' {
                '\\'
            } else if d == '"' {
                '"'
            } else if d == 'n' {
                '\n'
            } else if d == 'r' {
                '\r'
            } else {
                return None;
            };
            proof {
                assert(rest.skip(2) =~= s@.subrange(i + 2, to as int));
            }
            let ghost out0 = out@;
            push_char(&mut out, dec);
            proof {
                assert forall|t: Seq<char>|
                    out0 + (seq![dec] + t) =~= out@ + t by {}
            }
            i = i + 2;
        } else if c == '"' || c == '\n' || c == '\r' {
            return None;
        } else {
            proof {
                assert(rest.skip(1) =~= s@.subrange(i + 1, to as int));
            }
            let ghost out0 = out@;
            push_char(&mut out, c);
            proof {
                assert forall|t: Seq<char>|
                    out0 + (seq![s@[i as int]] + t) =~= out@ + t by {}
            }
            i = i + 1;
        }
    }
    proof {
        assert(s@.subrange(i as int, to as int) =~= Seq::<char>::empty());
        assert(out@ + Seq::<char>::empty() =~= out@);
    }
    Some(out)
}

} // verus!
