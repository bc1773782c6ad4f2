use std::borrow::Cow;
use vstd::prelude::*;

verus! {

/// The wire form of one character: `\` and `"` gain a leading backslash.
pub open spec fn escape_char(c: char) -> Seq<char> {
    if c == '\\' {
        seq!['\\', '\\']
    } else if c == '"' {
        seq!['\\', '"']
    } else {
        seq![c]
    }
}

/// Every `\` of `s` becomes `\\` and every `"` becomes `\"`.
pub open spec fn escape_text(s: Seq<char>) -> Seq<char>
    decreases s.len(),
{
    if s.len() == 0 {
        Seq::empty()
    } else {
        escape_char(s[0]) + escape_text(s.drop_first())
    }
}

/// Scanning from the left, each non-overlapping pair `\` `second` becomes
/// the single character `second`; everything else is kept.
pub open spec fn collapse_pairs(s: Seq<char>, second: char) -> Seq<char>
    decreases s.len(),
{
    if s.len() == 0 {
        Seq::empty()
    } else if s.len() >= 2 && s[0] == '\\' && s[1] == second {
        seq![second] + collapse_pairs(s.drop_first().drop_first(), second)
    } else {
        seq![s[0]] + collapse_pairs(s.drop_first(), second)
    }
}

/// `\\` pairs are resolved first, then `\"` pairs.
pub open spec fn unescape_text(s: Seq<char>) -> Seq<char> {
    collapse_pairs(collapse_pairs(s, '\\'), '"')
}

pub open spec fn has_special(s: Seq<char>) -> bool {
    exists|i: int| 0 <= i < s.len() && (s[i] == '\\' || s[i] == '"')
}

pub open spec fn has_pair(s: Seq<char>, second: char) -> bool {
    exists|i: int| 0 <= i < s.len() - 1 && #[trigger] s[i] == '\\' && s[i + 1] == second
}

proof fn lemma_escape_plain(s: Seq<char>)
    requires
        !has_special(s),
    ensures
        escape_text(s) == s,
    decreases s.len(),
{
    if s.len() > 0 {
        assert(!has_special(s.drop_first())) by {
            assert forall|i: int| 0 <= i < s.drop_first().len() implies !(s.drop_first()[i] == '\\'
                || s.drop_first()[i] == '"') by {
                assert(s.drop_first()[i] == s[i + 1]);
            }
        }
        lemma_escape_plain(s.drop_first());
        assert(!(s[0] == '\\' || s[0] == '"'));
        assert(seq![s[0]] + s.drop_first() =~= s);
    }
}

proof fn lemma_collapse_plain(s: Seq<char>, second: char)
    requires
        !has_pair(s, second),
    ensures
        collapse_pairs(s, second) == s,
    decreases s.len(),
{
    if s.len() > 0 {
        let t = s.drop_first();
        assert(!has_pair(t, second)) by {
            assert forall|i: int| 0 <= i < t.len() - 1 implies !(#[trigger] t[i] == '\\' && t[i + 1]
                == second) by {
                assert(t[i] == s[i + 1] && t[i + 1] == s[i + 2]);
            }
        }
        lemma_collapse_plain(t, second);
        assert(!(s.len() >= 2 && s[0] == '\\' && s[1] == second));
        assert(seq![s[0]] + t =~= s);
    }
}

/// Relies on String::push: appends one character at the end.
#[verifier::external_body]
fn push_char(s: &mut String, c: char)
    ensures
        final(s)@ == old(s)@.push(c),
{
    s.push(c)
}

fn chars_of(s: &str) -> (v: Vec<char>)
    ensures
        v@ == s@,
{
    let mut v: Vec<char> = Vec::new();
    for c in it: s.chars()
        invariant
            v@ == it.seq().take(it.index() as int),
    {
        v.push(c);
    }
    v
}

fn string_of(v: &Vec<char>) -> (r: String)
    ensures
        r@ == v@,
{
    let mut r = String::new();
    let n = v.len();
    let mut i: usize = 0;
    while i < n
        invariant
            n == v@.len(),
            i <= n,
            r@ == v@.take(i as int),
        decreases n - i,
    {
        push_char(&mut r, v[i]);
        assert(v@.take(i as int).push(v@[i as int]) =~= v@.take(i + 1));
        i = i + 1;
    }
    assert(v@.take(n as int) =~= v@);
    r
}

fn contains_special(v: &Vec<char>) -> (r: bool)
    ensures
        r == has_special(v@),
{
    let n = v.len();
    let mut i: usize = 0;
    while i < n
        invariant
            n == v@.len(),
            i <= n,
            forall|j: int| 0 <= j < i ==> !(#[trigger] v@[j] == '\\' || v@[j] == '"'),
        decreases n - i,
    {
        if v[i] == '\\' || v[i] == '"' {
            return true;
        }
        i = i + 1;
    }
    false
}

fn contains_pair(v: &Vec<char>, second: char) -> (r: bool)
    ensures
        r == has_pair(v@, second),
{
    let n = v.len();
    let mut i: usize = 0;
    while i < n
        invariant
            n == v@.len(),
            i <= n,
            forall|j: int| 0 <= j < i && j < n - 1 ==> !(#[trigger] v@[j] == '\\' && v@[j + 1] == second),
        decreases n - i,
    {
        if i + 1 < n && v[i] == '\\' && v[i + 1] == second {
            return true;
        }
        i = i + 1;
    }
    false
}

fn escape_chars(v: &Vec<char>) -> (out: Vec<char>)
    ensures
        out@ == escape_text(v@),
{
    let n = v.len();
    let mut out: Vec<char> = Vec::new();
    let mut i: usize = 0;
    assert(v@.subrange(0, n as int) =~= v@);
    assert(out@ + escape_text(v@) =~= escape_text(v@));
    while i < n
        invariant
            n == v@.len(),
            i <= n,
            escape_text(v@) == out@ + escape_text(v@.subrange(i as int, n as int)),
        decreases n - i,
    {
        let ghost rest = v@.subrange(i as int, n as int);
        let ghost before = out@;
        assert(rest.drop_first() =~= v@.subrange(i + 1, n as int));
        let c = v[i];
        if c == '\\' || c == '"' {
            out.push('\\');
        }
        out.push(c);
        assert(out@ =~= before + escape_char(c));
        assert(before + (escape_char(c) + escape_text(rest.drop_first())) =~= out@ + escape_text(
            rest.drop_first(),
        ));
        i = i + 1;
    }
    assert(v@.subrange(n as int, n as int) =~= Seq::<char>::empty());
    assert(out@ + Seq::<char>::empty() =~= out@);
    out
}

fn collapse_chars(v: &Vec<char>, second: char) -> (out: Vec<char>)
    ensures
        out@ == collapse_pairs(v@, second),
{
    let n = v.len();
    let mut out: Vec<char> = Vec::new();
    let mut i: usize = 0;
    assert(v@.subrange(0, n as int) =~= v@);
    assert(out@ + collapse_pairs(v@, second) =~= collapse_pairs(v@, second));
    while i < n
        invariant
            n == v@.len(),
            i <= n,
            collapse_pairs(v@, second) == out@ + collapse_pairs(
                v@.subrange(i as int, n as int),
                second,
            ),
        decreases n - i,
    {
        let ghost rest = v@.subrange(i as int, n as int);
        let ghost before = out@;
        if i + 1 < n && v[i] == '\\' && v[i + 1] == second {
            assert(rest.drop_first().drop_first() =~= v@.subrange(i + 2, n as int));
            out.push(second);
            assert(before + (seq![second] + collapse_pairs(rest.drop_first().drop_first(), second))
                =~= out@ + collapse_pairs(rest.drop_first().drop_first(), second));
            i = i + 2;
        } else {
            assert(rest.drop_first() =~= v@.subrange(i + 1, n as int));
            out.push(v[i]);
            assert(before + (seq![rest[0]] + collapse_pairs(rest.drop_first(), second)) =~= out@
                + collapse_pairs(rest.drop_first(), second));
            i = i + 1;
        }
    }
    assert(v@.subrange(n as int, n as int) =~= Seq::<char>::empty());
    assert(out@ + Seq::<char>::empty() =~= out@);
    out
}

/// The wire form of quoted-string content: `\` becomes `\\`, then `"`
/// becomes `\"`. The input is borrowed back unchanged when it holds neither.
pub fn escape_quoted(unescaped: &str) -> (r: Cow<'_, str>)
    ensures
        r@ == escape_text(unescaped@),
        (r is Borrowed) == !has_special(unescaped@),
{
    let v = chars_of(unescaped);
    if !contains_special(&v) {
        proof {
            lemma_escape_plain(unescaped@);
        }
        return Cow::Borrowed(unescaped);
    }
    Cow::Owned(string_of(&escape_chars(&v)))
}

/// The logical value of quoted-string content: `\\` becomes `\`, then `\"`
/// becomes `"`. The input is borrowed back unchanged when it holds neither.
pub fn unescape_quoted(escaped: &str) -> (r: Cow<'_, str>)
    ensures
        r@ == unescape_text(escaped@),
        (r is Borrowed) == (!has_pair(escaped@, '\\') && !has_pair(escaped@, '"')),
{
    let v = chars_of(escaped);
    if !contains_pair(&v, '\\') && !contains_pair(&v, '"') {
        proof {
            lemma_collapse_plain(escaped@, '\\');
            lemma_collapse_plain(escaped@, '"');
        }
        return Cow::Borrowed(escaped);
    }
    let once = collapse_chars(&v, '\\');
    Cow::Owned(string_of(&collapse_chars(&once, '"')))
}

/// Well-formed quoted content on the wire: every `\` opens a `\\` or `\"`
/// pair, and no `"` stands outside such a pair.
pub open spec fn wire_text(w: Seq<char>) -> bool
    decreases w.len(),
{
    if w.len() == 0 {
        true
    } else if w[0] == '\\' {
        w.len() >= 2 && (w[1] == '\\' || w[1] == '"') && wire_text(w.drop_first().drop_first())
    } else {
        w[0] != '"' && wire_text(w.drop_first())
    }
}

/// Wire text read pair by pair: `\x` stands for `x`, any other character for itself.
pub open spec fn decode_pairs(w: Seq<char>) -> Seq<char>
    decreases w.len(),
{
    if w.len() == 0 {
        Seq::empty()
    } else if w[0] == '\\' && w.len() >= 2 {
        seq![w[1]] + decode_pairs(w.drop_first().drop_first())
    } else {
        seq![w[0]] + decode_pairs(w.drop_first())
    }
}

proof fn lemma_escape_is_wire(s: Seq<char>)
    ensures
        wire_text(escape_text(s)),
        decode_pairs(escape_text(s)) == s,
    decreases s.len(),
{
    if s.len() > 0 {
        let c = s[0];
        let rest = escape_text(s.drop_first());
        lemma_escape_is_wire(s.drop_first());
        let e = escape_char(c) + rest;
        if c == '\\' || c == '"' {
            assert(e.drop_first().drop_first() =~= rest);
        } else {
            assert(e.drop_first() =~= rest);
        }
        assert(seq![c] + s.drop_first() =~= s);
    }
}

proof fn lemma_collapse_backslash_head(r: Seq<char>)
    requires
        wire_text(r),
        r.len() > 0,
    ensures
        collapse_pairs(r, '\\').len() > 0,
        collapse_pairs(r, '\\')[0] == r[0],
        r[0] != '"',
{
}

proof fn lemma_collapse_head(c: char, x: Seq<char>, second: char)
    requires
        c != '\\',
    ensures
        collapse_pairs(seq![c] + x, second) == seq![c] + collapse_pairs(x, second),
{
    assert((seq![c] + x).drop_first() =~= x);
}

proof fn lemma_unescape_wire(w: Seq<char>)
    requires
        wire_text(w),
    ensures
        unescape_text(w) == decode_pairs(w),
    decreases w.len(),
{
    if w.len() > 0 {
        if w[0] == '\\' {
            let rest = w.drop_first().drop_first();
            lemma_unescape_wire(rest);
            let b = collapse_pairs(rest, '\\');
            if w[1] == '\\' {
                assert(collapse_pairs(w, '\\') == seq!['\\'] + b);
                let x = seq!['\\'] + b;
                if rest.len() > 0 {
                    lemma_collapse_backslash_head(rest);
                }
                assert(x.drop_first() =~= b);
                assert(x.len() >= 2 ==> x[1] == b[0]);
                assert(!(x.len() >= 2 && x[1] == '"'));
            } else {
                let tail = w.drop_first();
                assert(tail.drop_first() =~= rest);
                lemma_collapse_head('"', rest, '\\');
                assert(seq!['"'] + rest =~= tail);
                let x = seq!['\\'] + (seq!['"'] + b);
                assert(collapse_pairs(w, '\\') == x);
                assert(x.drop_first().drop_first() =~= b);
            }
        } else {
            lemma_unescape_wire(w.drop_first());
            assert(seq![w[0]] + w.drop_first() =~= w);
            lemma_collapse_head(w[0], w.drop_first(), '\\');
            lemma_collapse_head(w[0], collapse_pairs(w.drop_first(), '\\'), '"');
        }
    }
}

proof fn lemma_escape_decoded(w: Seq<char>)
    requires
        wire_text(w),
    ensures
        escape_text(decode_pairs(w)) == w,
    decreases w.len(),
{
    if w.len() > 0 {
        if w[0] == '\\' {
            let rest = w.drop_first().drop_first();
            lemma_escape_decoded(rest);
            let d = seq![w[1]] + decode_pairs(rest);
            assert(d.drop_first() =~= decode_pairs(rest));
            assert(seq![w[0], w[1]] + rest =~= w);
        } else {
            lemma_escape_decoded(w.drop_first());
            let d = seq![w[0]] + decode_pairs(w.drop_first());
            assert(d.drop_first() =~= decode_pairs(w.drop_first()));
            assert(seq![w[0]] + w.drop_first() =~= w);
        }
    }
}

/// Unescaping the escaped form of any text gives the text back, and the
/// escaped form has no `"` or `\` outside an escape pair. This holds in
/// particular of text with no raw `"` and no raw `\`, which escaping leaves as is.
pub proof fn law_unescape_after_escape(s: Seq<char>)
    ensures
        unescape_text(escape_text(s)) == s,
        wire_text(escape_text(s)),
{
    lemma_escape_is_wire(s);
    lemma_unescape_wire(escape_text(s));
}

/// Escaping the unescaped form of well-formed wire text gives the wire text back.
pub proof fn law_escape_after_unescape(w: Seq<char>)
    requires
        wire_text(w),
    ensures
        escape_text(unescape_text(w)) == w,
{
    lemma_unescape_wire(w);
    lemma_escape_decoded(w);
}

} // verus!
