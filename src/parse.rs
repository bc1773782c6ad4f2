use std::borrow::Cow;
use vstd::prelude::*;
use vstd::slice::slice_subrange;

use crate::classes::{
    atext, base64_char, digit, is_Let_dig, is_atext, is_base64_char, is_digit,
    is_qtextSMTP, let_dig, qtext, BACKSLASH, DOT, DQUOTE, EQUALS, HYPHEN,
};
use crate::quoted::{has_pair, unescape_quoted, unescape_text};
use crate::types::{AtomOrQuoted, ParseError};

verus! {

/// The text that a run of ASCII bytes spells.
pub open spec fn ascii_chars(b: Seq<u8>) -> Seq<char> {
    b.map_values(|x: u8| x as char)
}

pub open spec fn ascii_bytes(b: Seq<u8>) -> bool {
    forall|i: int| 0 <= i < b.len() ==> #[trigger] b[i] < 128
}

/// Relies on std::str::from_utf8: ASCII bytes are valid UTF-8, and each
/// reads as the character with the same code.
#[verifier::external_body]
fn ascii_str<'a>(b: &'a [u8]) -> (r: Option<&'a str>)
    requires
        ascii_bytes(b@),
    ensures
        r is Some,
        r->Some_0@ == ascii_chars(b@),
{
    std::str::from_utf8(b).ok()
}

/// The byte classes whose maximal runs the parsers take.
#[derive(Clone, Copy)]
pub enum Run {
    Atext,
    Digit,
    Base64,
}

pub open spec fn in_run(class: Run, b: u8) -> bool {
    match class {
        Run::Atext => atext(b),
        Run::Digit => digit(b),
        Run::Base64 => base64_char(b),
    }
}

/// Where the run of `class` bytes that starts at `i` ends. A run that
/// reaches the end of the buffer might go on in bytes not yet received.
pub open spec fn run_end(s: Seq<u8>, i: int, class: Run) -> Result<int, ParseError>
    decreases s.len() - i,
{
    if i >= s.len() {
        Err(ParseError::Incomplete)
    } else if in_run(class, s[i]) {
        run_end(s, i + 1, class)
    } else {
        Ok(i)
    }
}

/// Where `Ldh-str` that starts at `i` ends: letters and digits, and a `-`
/// only where a letter or digit follows it.
pub open spec fn ldh_end(s: Seq<u8>, i: int) -> Result<int, ParseError>
    decreases s.len() - i,
{
    if i >= s.len() {
        Err(ParseError::Incomplete)
    } else if let_dig(s[i]) {
        ldh_end(s, i + 1)
    } else if s[i] == HYPHEN {
        if i + 1 >= s.len() {
            Err(ParseError::Incomplete)
        } else if let_dig(s[i + 1]) {
            ldh_end(s, i + 2)
        } else {
            Ok(i)
        }
    } else {
        Ok(i)
    }
}

/// Where `sub-domain = Let-dig [Ldh-str]` that starts at `i` ends.
pub open spec fn sub_domain_end(s: Seq<u8>, i: int) -> Result<int, ParseError> {
    if i >= s.len() {
        Err(ParseError::Incomplete)
    } else if !let_dig(s[i]) {
        Err(ParseError::Invalid(i as usize))
    } else {
        ldh_end(s, i + 1)
    }
}

proof fn lemma_ldh_end_after(s: Seq<u8>, i: int)
    ensures
        ldh_end(s, i) matches Ok(j) ==> i <= j < s.len(),
    decreases s.len() - i,
{
    if i < s.len() {
        if let_dig(s[i]) {
            lemma_ldh_end_after(s, i + 1);
        } else if s[i] == HYPHEN && i + 1 < s.len() && let_dig(s[i + 1]) {
            lemma_ldh_end_after(s, i + 2);
        }
    }
}

#[via_fn]
proof fn domain_rest_decreases(s: Seq<u8>, i: int) {
    lemma_ldh_end_after(s, i + 2);
}

/// Where `*("." sub-domain)` that follows a label ending at `i` ends. A `.`
/// not followed by a label is left to the caller.
pub open spec fn domain_rest(s: Seq<u8>, i: int) -> Result<int, ParseError>
    decreases s.len() - i,
    via domain_rest_decreases
{
    if i >= s.len() {
        Err(ParseError::Incomplete)
    } else if s[i] != DOT {
        Ok(i)
    } else {
        match sub_domain_end(s, i + 1) {
            Ok(j) => domain_rest(s, j),
            Err(ParseError::Invalid(_)) => Ok(i),
            Err(ParseError::Incomplete) => Err(ParseError::Incomplete),
        }
    }
}

/// How many bytes `Domain = sub-domain *("." sub-domain)` takes.
pub open spec fn domain_len(s: Seq<u8>) -> Result<int, ParseError> {
    match sub_domain_end(s, 0) {
        Ok(j) => domain_rest(s, j),
        Err(e) => Err(e),
    }
}

/// A parse that took the first `n` bytes as its token, or failed with `e`.
pub open spec fn split_as(
    r: Result<(&[u8], &[u8]), ParseError>,
    s: Seq<u8>,
    o: Result<int, ParseError>,
) -> bool {
    match o {
        Ok(n) => r matches Ok((rem, tok)) && tok@ == s.take(n) && rem@ == s.skip(n),
        Err(e) => r == Err::<(&[u8], &[u8]), ParseError>(e),
    }
}

/// The same for a token handed out as text.
pub open spec fn split_text_as(
    r: Result<(&[u8], &str), ParseError>,
    s: Seq<u8>,
    o: Result<int, ParseError>,
) -> bool {
    match o {
        Ok(n) => r matches Ok((rem, tok)) && tok@ == ascii_chars(s.take(n)) && rem@ == s.skip(n),
        Err(e) => r == Err::<(&[u8], &str), ParseError>(e),
    }
}

pub open spec fn agrees(r: Result<usize, ParseError>, o: Result<int, ParseError>) -> bool {
    match r {
        Ok(n) => o == Ok::<int, ParseError>(n as int),
        Err(e) => o == Err::<int, ParseError>(e),
    }
}

fn split_token<'a>(input: &'a [u8], n: usize) -> (r: (&'a [u8], &'a [u8]))
    requires
        n <= input@.len(),
    ensures
        r.0@ == input@.skip(n as int),
        r.1@ == input@.take(n as int),
{
    (slice_subrange(input, n, input.len()), slice_subrange(input, 0, n))
}

fn ldh_from(s: &[u8], start: usize) -> (r: Result<usize, ParseError>)
    requires
        start <= s@.len(),
    ensures
        agrees(r, ldh_end(s@, start as int)),
        r matches Ok(n) ==> start <= n < s@.len() && forall|k: int|
            start <= k < n ==> #[trigger] s@[k] < 128,
{
    let n = s.len();
    let mut i = start;
    loop
        invariant
            start <= i <= n,
            n == s@.len(),
            ldh_end(s@, i as int) == ldh_end(s@, start as int),
            forall|k: int| start <= k < i ==> #[trigger] s@[k] < 128,
        decreases n - i,
    {
        if i >= n {
            return Err(ParseError::Incomplete);
        }
        if is_Let_dig(s[i]) {
            i = i + 1;
        } else if s[i] == HYPHEN {
            if i + 1 >= n {
                return Err(ParseError::Incomplete);
            }
            if is_Let_dig(s[i + 1]) {
                i = i + 2;
            } else {
                return Ok(i);
            }
        } else {
            return Ok(i);
        }
    }
}

fn sub_domain_at(s: &[u8], start: usize) -> (r: Result<usize, ParseError>)
    requires
        start <= s@.len(),
    ensures
        agrees(r, sub_domain_end(s@, start as int)),
        r matches Ok(n) ==> start < n < s@.len() && forall|k: int|
            start <= k < n ==> #[trigger] s@[k] < 128,
{
    if start >= s.len() {
        return Err(ParseError::Incomplete);
    }
    if !is_Let_dig(s[start]) {
        return Err(ParseError::Invalid(start));
    }
    ldh_from(s, start + 1)
}

/// Ldh-str = *( ALPHA / DIGIT / ("-" Let-dig) )
pub fn Ldh_str(input: &[u8]) -> (r: Result<(&[u8], &[u8]), ParseError>)
    ensures
        split_as(r, input@, ldh_end(input@, 0)),
{
    match ldh_from(input, 0) {
        Ok(n) => Ok(split_token(input, n)),
        Err(e) => Err(e),
    }
}

/// sub-domain = Let-dig [Ldh-str]
pub fn sub_domain(input: &[u8]) -> (r: Result<(&[u8], &[u8]), ParseError>)
    ensures
        split_as(r, input@, sub_domain_end(input@, 0)),
{
    match sub_domain_at(input, 0) {
        Ok(n) => Ok(split_token(input, n)),
        Err(e) => Err(e),
    }
}

/// Domain = sub-domain *("." sub-domain)
pub fn Domain(input: &[u8]) -> (r: Result<(&[u8], &str), ParseError>)
    ensures
        split_text_as(r, input@, domain_len(input@)),
{
    let n = input.len();
    let mut end = match sub_domain_at(input, 0) {
        Ok(j) => j,
        Err(e) => return Err(e),
    };
    loop
        invariant
            end <= n,
            n == input@.len(),
            domain_rest(input@, end as int) == domain_len(input@),
            forall|k: int| 0 <= k < end ==> #[trigger] input@[k] < 128,
        ensures
            end <= n,
            domain_len(input@) == Ok::<int, ParseError>(end as int),
            forall|k: int| 0 <= k < end ==> #[trigger] input@[k] < 128,
        decreases n - end,
    {
        if end >= n {
            return Err(ParseError::Incomplete);
        }
        if input[end] != DOT {
            break ;
        }
        match sub_domain_at(input, end + 1) {
            Ok(j) => {
                end = j;
            },
            Err(ParseError::Invalid(_)) => break ,
            Err(ParseError::Incomplete) => return Err(ParseError::Incomplete),
        }
    }
    let (rem, tok) = split_token(input, end);
    assert(ascii_bytes(tok@)) by {
        assert forall|k: int| 0 <= k < tok@.len() implies #[trigger] tok@[k] < 128 by {
            assert(tok@[k] == input@[k]);
        }
    }
    Ok((rem, ascii_str(tok).unwrap()))
}

fn in_run_exec(class: Run, b: u8) -> (r: bool)
    ensures
        r == in_run(class, b),
{
    match class {
        Run::Atext => is_atext(b),
        Run::Digit => is_digit(b),
        Run::Base64 => is_base64_char(b),
    }
}

fn run_from(s: &[u8], start: usize, class: Run) -> (r: Result<usize, ParseError>)
    requires
        start <= s@.len(),
    ensures
        agrees(r, run_end(s@, start as int, class)),
        r matches Ok(n) ==> start <= n < s@.len() && forall|k: int|
            start <= k < n ==> in_run(class, #[trigger] s@[k]),
{
    let n = s.len();
    let mut i = start;
    while i < n
        invariant
            start <= i <= n,
            n == s@.len(),
            run_end(s@, i as int, class) == run_end(s@, start as int, class),
            forall|k: int| start <= k < i ==> in_run(class, #[trigger] s@[k]),
        decreases n - i,
    {
        if !in_run_exec(class, s[i]) {
            return Ok(i);
        }
        i = i + 1;
    }
    Err(ParseError::Incomplete)
}

/// How many bytes `Atom = 1*atext` takes.
pub open spec fn atom_len(s: Seq<u8>) -> Result<int, ParseError> {
    if s.len() > 0 && !atext(s[0]) {
        Err(ParseError::Invalid(0))
    } else {
        run_end(s, 0, Run::Atext)
    }
}

/// Atom = 1*atext
pub fn Atom(input: &[u8]) -> (r: Result<(&[u8], &str), ParseError>)
    ensures
        split_text_as(r, input@, atom_len(input@)),
{
    if input.len() > 0 && !is_atext(input[0]) {
        return Err(ParseError::Invalid(0));
    }
    let end = match run_from(input, 0, Run::Atext) {
        Ok(j) => j,
        Err(e) => return Err(e),
    };
    let (rem, tok) = split_token(input, end);
    assert(ascii_bytes(tok@)) by {
        assert forall|k: int| 0 <= k < tok@.len() implies #[trigger] tok@[k] < 128 by {
            assert(tok@[k] == input@[k]);
            assert(in_run(Run::Atext, input@[k]));
        }
    }
    Ok((rem, ascii_str(tok).unwrap()))
}

/// How many bytes `quoted-pairSMTP` takes: a backslash and then a
/// backslash or a double quote, the only escapes admitted.
pub open spec fn quoted_pair_len(s: Seq<u8>) -> Result<int, ParseError> {
    if s.len() == 0 {
        Err(ParseError::Incomplete)
    } else if s[0] != BACKSLASH {
        Err(ParseError::Invalid(0))
    } else if s.len() == 1 {
        Err(ParseError::Incomplete)
    } else if s[1] == BACKSLASH || s[1] == DQUOTE {
        Ok(2)
    } else {
        Err(ParseError::Invalid(1))
    }
}

/// How many bytes `QcontentSMTP = qtextSMTP / quoted-pairSMTP` takes.
pub open spec fn qcontent_len(s: Seq<u8>) -> Result<int, ParseError> {
    if s.len() > 0 && qtext(s[0]) {
        Ok(1)
    } else {
        quoted_pair_len(s)
    }
}

/// Where `*QcontentSMTP` that starts at `i` ends.
pub open spec fn qcontent_end(s: Seq<u8>, i: int) -> Result<int, ParseError>
    decreases s.len() - i,
{
    if i >= s.len() {
        Err(ParseError::Incomplete)
    } else if qtext(s[i]) {
        qcontent_end(s, i + 1)
    } else if s[i] == BACKSLASH {
        if i + 1 >= s.len() {
            Err(ParseError::Incomplete)
        } else if s[i + 1] == BACKSLASH || s[i + 1] == DQUOTE {
            qcontent_end(s, i + 2)
        } else {
            Ok(i)
        }
    } else {
        Ok(i)
    }
}

/// Where the content of `Quoted-string = DQUOTE *QcontentSMTP DQUOTE`
/// ends, that is the index of the closing quote. It is invalid at the byte
/// where neither content nor the closing quote can stand.
pub open spec fn quoted_end(s: Seq<u8>) -> Result<int, ParseError> {
    if s.len() == 0 {
        Err(ParseError::Incomplete)
    } else if s[0] != DQUOTE {
        Err(ParseError::Invalid(0))
    } else {
        match qcontent_end(s, 1) {
            Ok(j) => if s[j] == DQUOTE {
                Ok(j)
            } else {
                Err(ParseError::Invalid(j as usize))
            },
            Err(e) => Err(e),
        }
    }
}

/// The value of a quoted string whose closing quote stands at `j`.
pub open spec fn quoted_value(s: Seq<u8>, j: int) -> Seq<char> {
    unescape_text(ascii_chars(s.subrange(1, j)))
}

/// Whether quoted content holds a `\\` or `\"` pair, so that its value
/// differs from its wire form.
pub open spec fn has_escape(content: Seq<u8>) -> bool {
    has_pair(ascii_chars(content), '\\') || has_pair(ascii_chars(content), '"')
}

/// quoted-pairSMTP = "\" ("\" / DQUOTE)
pub fn quoted_pairSMTP(input: &[u8]) -> (r: Result<(&[u8], &[u8]), ParseError>)
    ensures
        split_as(r, input@, quoted_pair_len(input@)),
{
    if input.len() == 0 {
        return Err(ParseError::Incomplete);
    }
    if input[0] != BACKSLASH {
        return Err(ParseError::Invalid(0));
    }
    if input.len() == 1 {
        return Err(ParseError::Incomplete);
    }
    if input[1] == BACKSLASH || input[1] == DQUOTE {
        Ok(split_token(input, 2))
    } else {
        Err(ParseError::Invalid(1))
    }
}

/// QcontentSMTP = qtextSMTP / quoted-pairSMTP
pub fn QcontentSMTP(input: &[u8]) -> (r: Result<(&[u8], &[u8]), ParseError>)
    ensures
        split_as(r, input@, qcontent_len(input@)),
{
    if input.len() > 0 && is_qtextSMTP(input[0]) {
        return Ok(split_token(input, 1));
    }
    quoted_pairSMTP(input)
}

fn qcontent_from(s: &[u8], start: usize) -> (r: Result<usize, ParseError>)
    requires
        start <= s@.len(),
    ensures
        agrees(r, qcontent_end(s@, start as int)),
        r matches Ok(n) ==> start <= n < s@.len() && forall|k: int|
            start <= k < n ==> #[trigger] s@[k] < 128,
{
    let n = s.len();
    let mut i = start;
    loop
        invariant
            start <= i <= n,
            n == s@.len(),
            qcontent_end(s@, i as int) == qcontent_end(s@, start as int),
            forall|k: int| start <= k < i ==> #[trigger] s@[k] < 128,
        decreases n - i,
    {
        if i >= n {
            return Err(ParseError::Incomplete);
        }
        if is_qtextSMTP(s[i]) {
            i = i + 1;
        } else if s[i] == BACKSLASH {
            if i + 1 >= n {
                return Err(ParseError::Incomplete);
            }
            if s[i + 1] == BACKSLASH || s[i + 1] == DQUOTE {
                i = i + 2;
            } else {
                return Ok(i);
            }
        } else {
            return Ok(i);
        }
    }
}

/// Quoted-string = DQUOTE *QcontentSMTP DQUOTE, handed out unescaped.
pub fn Quoted_string(input: &[u8]) -> (r: Result<(&[u8], Cow<'_, str>), ParseError>)
    ensures
        match quoted_end(input@) {
            Ok(j) => r matches Ok((rem, text)) && rem@ == input@.skip(j + 1) && text@
                == quoted_value(input@, j) && (text is Borrowed) == !has_escape(
                input@.subrange(1, j),
            ),
            Err(e) => r is Err && r->Err_0 == e,
        },
{
    let n = input.len();
    if n == 0 {
        return Err(ParseError::Incomplete);
    }
    if input[0] != DQUOTE {
        return Err(ParseError::Invalid(0));
    }
    let j = match qcontent_from(input, 1) {
        Ok(j) => j,
        Err(e) => return Err(e),
    };
    if input[j] != DQUOTE {
        return Err(ParseError::Invalid(j));
    }
    let content = slice_subrange(input, 1, j);
    assert(ascii_bytes(content@)) by {
        assert forall|k: int| 0 <= k < content@.len() implies #[trigger] content@[k] < 128 by {
            assert(content@[k] == input@[k + 1]);
        }
    }
    let text = ascii_str(content).unwrap();
    let rem = slice_subrange(input, j + 1, n);
    Ok((rem, unescape_quoted(text)))
}

/// A buffer that starts with `"` is never an atom, so `String` tries the
/// quoted alternative exactly when the buffer cannot start an atom.
pub proof fn law_quote_starts_no_atom(s: Seq<u8>)
    requires
        s.len() > 0,
        s[0] == DQUOTE,
    ensures
        atom_len(s) == Err::<int, ParseError>(ParseError::Invalid(0)),
{
}

fn owned_text(c: Cow<'_, str>) -> (r: String)
    ensures
        r@ == c@,
{
    match c {
        Cow::Borrowed(b) => b.to_owned(),
        Cow::Owned(o) => o,
    }
}

/// String = Atom / Quoted-string. A buffer that starts with `"` cannot
/// start an atom, so at most one alternative can match.
pub fn String(input: &[u8]) -> (r: Result<(&[u8], AtomOrQuoted), ParseError>)
    ensures
        match atom_len(input@) {
            Ok(n) => r matches Ok((rem, AtomOrQuoted::Atom(t))) && rem@ == input@.skip(n) && t@
                == ascii_chars(input@.take(n)),
            Err(ParseError::Incomplete) => r is Err && r->Err_0 == ParseError::Incomplete,
            Err(ParseError::Invalid(_)) => match quoted_end(input@) {
                Ok(j) => r matches Ok((rem, AtomOrQuoted::Quoted(t))) && rem@ == input@.skip(j + 1)
                    && t@ == quoted_value(input@, j),
                Err(e) => r is Err && r->Err_0 == e,
            },
        },
{
    match Atom(input) {
        Ok((rem, atom)) => Ok((rem, AtomOrQuoted::Atom(atom.to_owned()))),
        Err(ParseError::Incomplete) => Err(ParseError::Incomplete),
        Err(ParseError::Invalid(_)) => match Quoted_string(input) {
            Ok((rem, quoted)) => Ok((rem, AtomOrQuoted::Quoted(owned_text(quoted)))),
            Err(e) => Err(e),
        },
    }
}

/// How many bytes a base64 token takes: a run of the base64 alphabet, then
/// `==` or `=` if present. One `=` that ends the buffer might be the first
/// of two, so more bytes are needed.
pub open spec fn base64_len(s: Seq<u8>) -> Result<int, ParseError> {
    match run_end(s, 0, Run::Base64) {
        Ok(k) => if s[k] != EQUALS {
            Ok(k)
        } else if k + 1 >= s.len() {
            Err(ParseError::Incomplete)
        } else if s[k + 1] == EQUALS {
            Ok(k + 2)
        } else {
            Ok(k + 1)
        },
        Err(e) => Err(e),
    }
}

/// A base64 token: its alphabet and padding, not its length or decoding.
pub fn base64(input: &[u8]) -> (r: Result<(&[u8], &str), ParseError>)
    ensures
        split_text_as(r, input@, base64_len(input@)),
{
    let n = input.len();
    let k = match run_from(input, 0, Run::Base64) {
        Ok(k) => k,
        Err(e) => return Err(e),
    };
    let end = if input[k] != EQUALS {
        k
    } else if k + 1 >= n {
        return Err(ParseError::Incomplete);
    } else if input[k + 1] == EQUALS {
        k + 2
    } else {
        k + 1
    };
    let (rem, tok) = split_token(input, end);
    assert(ascii_bytes(tok@)) by {
        assert forall|i: int| 0 <= i < tok@.len() implies #[trigger] tok@[i] < 128 by {
            assert(tok@[i] == input@[i]);
            if i < k {
                assert(in_run(Run::Base64, input@[i]));
            }
        }
    }
    Ok((rem, ascii_str(tok).unwrap()))
}

/// The value of a run of decimal digits.
pub open spec fn decimal(d: Seq<u8>) -> nat
    decreases d.len(),
{
    if d.len() == 0 {
        0
    } else {
        decimal(d.drop_last()) * 10 + (d.last() - 48) as nat
    }
}

/// How many bytes `number` takes: one or more digits whose value fits in
/// a `u32`. A larger value is invalid at the number's first byte, not cut
/// short.
pub open spec fn number_len(s: Seq<u8>) -> Result<int, ParseError> {
    if s.len() > 0 && !digit(s[0]) {
        Err(ParseError::Invalid(0))
    } else {
        match run_end(s, 0, Run::Digit) {
            Ok(n) => if decimal(s.take(n)) <= u32::MAX {
                Ok(n)
            } else {
                Err(ParseError::Invalid(0))
            },
            Err(e) => Err(e),
        }
    }
}

proof fn lemma_decimal_grows(s: Seq<u8>, i: int, k: int)
    requires
        0 <= i <= k <= s.len(),
        forall|j: int| 0 <= j < k ==> digit(#[trigger] s[j]),
    ensures
        decimal(s.take(i)) <= decimal(s.take(k)),
    decreases k - i,
{
    if i < k {
        lemma_decimal_grows(s, i, k - 1);
        assert(s.take(k).drop_last() =~= s.take(k - 1));
    }
}

/// A decimal number of one or more digits; leading zeros are accepted.
pub fn number(input: &[u8]) -> (r: Result<(&[u8], u32), ParseError>)
    ensures
        match number_len(input@) {
            Ok(n) => r matches Ok((rem, v)) && rem@ == input@.skip(n) && v == decimal(
                input@.take(n),
            ),
            Err(e) => r is Err && r->Err_0 == e,
        },
{
    if input.len() > 0 && !is_digit(input[0]) {
        return Err(ParseError::Invalid(0));
    }
    let n = match run_from(input, 0, Run::Digit) {
        Ok(n) => n,
        Err(e) => return Err(e),
    };
    let mut acc: u64 = 0;
    let mut i: usize = 0;
    while i < n
        invariant
            i <= n < input@.len(),
            acc == decimal(input@.take(i as int)),
            acc <= u32::MAX,
            forall|k: int| 0 <= k < n ==> in_run(Run::Digit, #[trigger] input@[k]),
            run_end(input@, 0, Run::Digit) == Ok::<int, ParseError>(n as int),
        decreases n - i,
    {
        assert(input@.take(i + 1).drop_last() =~= input@.take(i as int));
        assert(in_run(Run::Digit, input@[i as int]));
        acc = acc * 10 + (input[i] - 48) as u64;
        i = i + 1;
        if acc > u32::MAX as u64 {
            proof {
                lemma_decimal_grows(input@, i as int, n as int);
            }
            return Err(ParseError::Invalid(0));
        }
    }
    Ok((slice_subrange(input, n, input.len()), acc as u32))
}

/// An outcome that does not ask for more input.
pub open spec fn decided(o: Result<int, ParseError>) -> bool {
    o != Err::<int, ParseError>(ParseError::Incomplete)
}

proof fn lemma_run_end_extend(s: Seq<u8>, t: Seq<u8>, i: int, class: Run)
    requires
        0 <= i,
        decided(run_end(s, i, class)),
    ensures
        run_end(s + t, i, class) == run_end(s, i, class),
    decreases s.len() - i,
{
    assert((s + t)[i] == s[i]);
    if in_run(class, s[i]) {
        lemma_run_end_extend(s, t, i + 1, class);
    }
}

proof fn lemma_ldh_end_extend(s: Seq<u8>, t: Seq<u8>, i: int)
    requires
        0 <= i,
        decided(ldh_end(s, i)),
    ensures
        ldh_end(s + t, i) == ldh_end(s, i),
    decreases s.len() - i,
{
    assert((s + t)[i] == s[i]);
    if let_dig(s[i]) {
        lemma_ldh_end_extend(s, t, i + 1);
    } else if s[i] == HYPHEN {
        assert((s + t)[i + 1] == s[i + 1]);
        if let_dig(s[i + 1]) {
            lemma_ldh_end_extend(s, t, i + 2);
        }
    }
}

proof fn lemma_sub_domain_end_extend(s: Seq<u8>, t: Seq<u8>, i: int)
    requires
        0 <= i,
        decided(sub_domain_end(s, i)),
    ensures
        sub_domain_end(s + t, i) == sub_domain_end(s, i),
{
    assert((s + t)[i] == s[i]);
    if let_dig(s[i]) {
        lemma_ldh_end_extend(s, t, i + 1);
    }
}

proof fn lemma_domain_rest_extend(s: Seq<u8>, t: Seq<u8>, i: int)
    requires
        0 <= i,
        decided(domain_rest(s, i)),
    ensures
        domain_rest(s + t, i) == domain_rest(s, i),
    decreases s.len() - i,
{
    assert((s + t)[i] == s[i]);
    if s[i] == DOT {
        lemma_sub_domain_end_extend(s, t, i + 1);
        if let Ok(j) = sub_domain_end(s, i + 1) {
            lemma_ldh_end_after(s, i + 2);
            lemma_domain_rest_extend(s, t, j);
        }
    }
}

proof fn lemma_qcontent_end_extend(s: Seq<u8>, t: Seq<u8>, i: int)
    requires
        0 <= i,
        decided(qcontent_end(s, i)),
    ensures
        qcontent_end(s + t, i) == qcontent_end(s, i),
        qcontent_end(s, i) matches Ok(j) ==> i <= j < s.len(),
    decreases s.len() - i,
{
    assert((s + t)[i] == s[i]);
    if qtext(s[i]) {
        lemma_qcontent_end_extend(s, t, i + 1);
    } else if s[i] == BACKSLASH {
        assert((s + t)[i + 1] == s[i + 1]);
        if s[i + 1] == BACKSLASH || s[i + 1] == DQUOTE {
            lemma_qcontent_end_extend(s, t, i + 2);
        }
    }
}

/// Once a buffer decides a token, parsed or invalid, bytes that arrive
/// after it do not change the decision: only `Incomplete` asks the caller
/// to retry with a longer buffer.
pub proof fn law_decision_survives_more_input(s: Seq<u8>, t: Seq<u8>)
    ensures
        decided(ldh_end(s, 0)) ==> ldh_end(s + t, 0) == ldh_end(s, 0),
        decided(sub_domain_end(s, 0)) ==> sub_domain_end(s + t, 0) == sub_domain_end(s, 0),
        decided(domain_len(s)) ==> domain_len(s + t) == domain_len(s),
        decided(atom_len(s)) ==> atom_len(s + t) == atom_len(s),
        decided(quoted_end(s)) ==> quoted_end(s + t) == quoted_end(s),
        decided(base64_len(s)) ==> base64_len(s + t) == base64_len(s),
        decided(number_len(s)) ==> number_len(s + t) == number_len(s),
{
    if decided(ldh_end(s, 0)) {
        lemma_ldh_end_extend(s, t, 0);
    }
    if decided(sub_domain_end(s, 0)) {
        lemma_sub_domain_end_extend(s, t, 0);
    }
    if decided(domain_len(s)) {
        lemma_sub_domain_end_extend(s, t, 0);
        if let Ok(j) = sub_domain_end(s, 0) {
            lemma_ldh_end_after(s, 1);
            lemma_domain_rest_extend(s, t, j);
        }
    }
    if s.len() > 0 {
        assert((s + t)[0] == s[0]);
    }
    if decided(atom_len(s)) && !(s.len() > 0 && !atext(s[0])) {
        lemma_run_end_extend(s, t, 0, Run::Atext);
    }
    if decided(quoted_end(s)) && s.len() > 0 && s[0] == DQUOTE {
        lemma_qcontent_end_extend(s, t, 1);
        if let Ok(j) = qcontent_end(s, 1) {
            assert((s + t)[j] == s[j]);
        }
    }
    if decided(base64_len(s)) {
        lemma_run_end_extend(s, t, 0, Run::Base64);
        if let Ok(k) = run_end(s, 0, Run::Base64) {
            lemma_run_end_bounds(s, 0, Run::Base64);
            assert((s + t)[k] == s[k]);
            if k + 1 < s.len() {
                assert((s + t)[k + 1] == s[k + 1]);
            }
        }
    }
    if decided(number_len(s)) && !(s.len() > 0 && !digit(s[0])) {
        lemma_run_end_extend(s, t, 0, Run::Digit);
        if let Ok(n) = run_end(s, 0, Run::Digit) {
            lemma_run_end_bounds(s, 0, Run::Digit);
            assert((s + t).take(n) =~= s.take(n));
        }
    }
}

proof fn lemma_run_end_bounds(s: Seq<u8>, i: int, class: Run)
    ensures
        run_end(s, i, class) matches Ok(j) ==> i <= j < s.len(),
    decreases s.len() - i,
{
    if i < s.len() && in_run(class, s[i]) {
        lemma_run_end_bounds(s, i + 1, class);
    }
}

} // verus!
