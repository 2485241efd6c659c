//! Byte and character helpers shared by the protocol modules.

use vstd::prelude::*;
use vstd::utf8::*;
use vstd::string::*;

verus! {

/// Decodes owned bytes as UTF-8 (`String::from_utf8`).
///
/// Trusted: std documents that the call succeeds exactly when the bytes are
/// valid UTF-8 and that the string then holds the decoded characters; both
/// are stated over vstd's model of UTF-8.
#[verifier::external_body]
pub(crate) fn string_from_utf8(bytes: Vec<u8>) -> (r: Option<String>)
    ensures
        r is Some <==> valid_utf8(bytes@),
        r matches Some(s) ==> s@ == decode_utf8(bytes@),
{
    match String::from_utf8(bytes) {
        Ok(s) => Some(s),
        Err(_) => None,
    }
}

/// Appends a character to a string (`String::push`).
///
/// Trusted: std documents that the character is appended to the end.
#[verifier::external_body]
pub(crate) fn push_char(s: &mut String, c: char)
    ensures
        final(s)@ == old(s)@.push(c),
{
    s.push(c);
}

/// The UTF-8 bytes of a string, copied into a vector.
pub(crate) fn str_bytes(s: &str) -> (r: Vec<u8>)
    ensures
        r@ == encode_utf8(s@),
{
    vstd::slice::slice_to_vec(s.as_bytes())
}

/// The characters that `String::from_utf8_lossy` makes of some bytes: invalid
/// sequences become U+FFFD.
pub uninterp spec fn utf8_lossy(bytes: Seq<u8>) -> Seq<char>;

/// Decodes bytes as UTF-8, replacing invalid sequences (`String::from_utf8_lossy`).
///
/// Trusted: the result is named by `utf8_lossy`; std documents that valid
/// UTF-8 is decoded unchanged, which is stated over vstd's model of UTF-8.
#[verifier::external_body]
pub(crate) fn lossy_string(bytes: &[u8]) -> (r: String)
    ensures
        r@ == utf8_lossy(bytes@),
        valid_utf8(bytes@) ==> r@ == decode_utf8(bytes@),
{
    String::from_utf8_lossy(bytes).into_owned()
}

/// Whether two byte sequences are equal.
pub(crate) fn bytes_eq(a: &[u8], b: &[u8]) -> (r: bool)
    ensures
        r == (a@ == b@),
{
    if a.len() != b.len() {
        return false;
    }
    let mut i: usize = 0;
    while i < a.len()
        invariant
            i <= a@.len(),
            a@.len() == b@.len(),
            forall|j: int| 0 <= j < i ==> a@[j] == b@[j],
        decreases a@.len() - i,
    {
        if a[i] != b[i] {
            return false;
        }
        i = i + 1;
    }
    assert(a@ =~= b@);
    true
}

/// `c` has the Unicode White_Space property: tab, line feed, vertical tab,
/// form feed, carriage return, space, next line, no-break space, ogham space
/// mark, the spaces from en quad to hair space, line separator, paragraph
/// separator, narrow no-break space, medium mathematical space and
/// ideographic space.
pub open spec fn char_whitespace(c: char) -> bool {
    let u = c as u32;
    ||| 0x09 <= u <= 0x0D
    ||| u == 0x20
    ||| u == 0x85
    ||| u == 0xA0
    ||| u == 0x1680
    ||| 0x2000 <= u <= 0x200A
    ||| u == 0x2028
    ||| u == 0x2029
    ||| u == 0x202F
    ||| u == 0x205F
    ||| u == 0x3000
}

/// `c` is alphabetic or numeric in the Unicode sense.
pub uninterp spec fn char_alphanumeric(c: char) -> bool;

/// ASCII letters and digits.
pub open spec fn ascii_alphanumeric(c: char) -> bool {
    ('a' <= c && c <= 'z') || ('A' <= c && c <= 'Z') || ('0' <= c && c <= '9')
}

/// Whether `c` is alphanumeric (`char::is_alphanumeric`).
///
/// Trusted: std defines the result by the Unicode Alphabetic property and
/// the Numeric categories, named `char_alphanumeric`; among ASCII characters
/// these are exactly the letters and digits.
#[verifier::external_body]
pub(crate) fn is_alphanumeric(c: char) -> (r: bool)
    ensures
        r == char_alphanumeric(c),
        (c as u32) < 128 ==> (r <==> ascii_alphanumeric(c)),
{
    c.is_alphanumeric()
}

/// The number of leading whitespace characters.
pub open spec fn leading_ws(s: Seq<char>) -> nat
    decreases s.len(),
{
    if s.len() > 0 && char_whitespace(s[0]) {
        1 + leading_ws(s.drop_first())
    } else {
        0
    }
}

/// The number of trailing whitespace characters.
pub open spec fn trailing_ws(s: Seq<char>) -> nat
    decreases s.len(),
{
    if s.len() > 0 && char_whitespace(s.last()) {
        1 + trailing_ws(s.drop_last())
    } else {
        0
    }
}

/// The number of leading characters before the first whitespace.
pub open spec fn word_len(s: Seq<char>) -> nat
    decreases s.len(),
{
    if s.len() > 0 && !char_whitespace(s[0]) {
        1 + word_len(s.drop_first())
    } else {
        0
    }
}

pub proof fn lemma_leading_ws_bound(s: Seq<char>)
    ensures
        leading_ws(s) <= s.len(),
        leading_ws(s) < s.len() ==> !char_whitespace(s[leading_ws(s) as int]),
    decreases s.len(),
{
    if s.len() > 0 && char_whitespace(s[0]) {
        lemma_leading_ws_bound(s.drop_first());
    }
}

pub proof fn lemma_word_len_bound(s: Seq<char>)
    ensures
        word_len(s) <= s.len(),
        s.len() > 0 && !char_whitespace(s[0]) ==> word_len(s) >= 1,
    decreases s.len(),
{
    if s.len() > 0 && !char_whitespace(s[0]) {
        lemma_word_len_bound(s.drop_first());
    }
}

/// `s` with leading and trailing whitespace removed.
pub open spec fn spec_trim(s: Seq<char>) -> Seq<char> {
    let t = s.skip(leading_ws(s) as int);
    t.take(t.len() - trailing_ws(t))
}

/// The words of `s`: the maximal runs of characters that are not
/// whitespace, in order.
pub open spec fn words(s: Seq<char>) -> Seq<Seq<char>>
    decreases s.len(),
{
    let t = s.skip(leading_ws(s) as int);
    if t.len() == 0 {
        seq![]
    } else {
        proof {
            lemma_leading_ws_bound(s);
            lemma_word_len_bound(t);
        }
        let n = word_len(t);
        seq![t.take(n as int)] + words(t.skip(n as int))
    }
}

/// The words joined by `sep`.
pub open spec fn join(ws: Seq<Seq<char>>, sep: Seq<char>) -> Seq<char>
    decreases ws.len(),
{
    if ws.len() == 0 {
        seq![]
    } else if ws.len() == 1 {
        ws[0]
    } else {
        join(ws.drop_last(), sep) + sep + ws.last()
    }
}

/// No character of `w` is whitespace.
pub open spec fn no_whitespace(w: Seq<char>) -> bool {
    forall|i: int| 0 <= i < w.len() ==> !char_whitespace(#[trigger] w[i])
}

/// Every word is non-empty and free of whitespace.
pub open spec fn proper_words(ws: Seq<Seq<char>>) -> bool {
    forall|i: int| 0 <= i < ws.len() ==> #[trigger] ws[i].len() > 0 && no_whitespace(ws[i])
}

proof fn lemma_word_len_prefix(s: Seq<char>)
    ensures
        word_len(s) <= s.len(),
        forall|i: int| 0 <= i < word_len(s) ==> !char_whitespace(#[trigger] s[i]),
    decreases s.len(),
{
    if s.len() > 0 && !char_whitespace(s[0]) {
        lemma_word_len_prefix(s.drop_first());
        assert forall|i: int| 0 <= i < word_len(s) implies !char_whitespace(#[trigger] s[i]) by {
            if i > 0 {
                assert(s[i] == s.drop_first()[i - 1]);
            }
        }
    }
}

proof fn lemma_word_len_of(w: Seq<char>, rest: Seq<char>)
    requires
        no_whitespace(w),
        rest.len() == 0 || char_whitespace(rest[0]),
    ensures
        word_len(w + rest) == w.len(),
    decreases w.len(),
{
    if w.len() > 0 {
        assert((w + rest)[0] == w[0]);
        assert((w + rest).drop_first() =~= w.drop_first() + rest);
        lemma_word_len_of(w.drop_first(), rest);
    } else {
        assert(w + rest =~= rest);
    }
}

/// The words of a text are non-empty and free of whitespace.
pub proof fn lemma_words_proper(s: Seq<char>)
    ensures
        proper_words(words(s)),
    decreases s.len(),
{
    let t = s.skip(leading_ws(s) as int);
    lemma_leading_ws_bound(s);
    if t.len() > 0 {
        lemma_word_len_bound(t);
        lemma_word_len_prefix(t);
        let n = word_len(t);
        lemma_words_proper(t.skip(n as int));
        let w = t.take(n as int);
        assert(no_whitespace(w)) by {
            assert forall|i: int| 0 <= i < w.len() implies !char_whitespace(#[trigger] w[i]) by {
                assert(w[i] == t[i]);
            }
        }
        let ws = words(s);
        assert(ws == seq![w] + words(t.skip(n as int)));
        assert forall|i: int| 0 <= i < ws.len() implies #[trigger] ws[i].len() > 0 && no_whitespace(ws[i]) by {
            if i > 0 {
                assert(ws[i] == words(t.skip(n as int))[i - 1]);
            }
        }
    }
}

/// Whitespace in front changes nothing about the words.
proof fn lemma_words_after_space(sp: char, r: Seq<char>)
    requires
        char_whitespace(sp),
    ensures
        words(seq![sp] + r) == words(r),
{
    let x = seq![sp] + r;
    assert(x[0] == sp);
    assert(x.drop_first() =~= r);
    assert(leading_ws(x) == 1 + leading_ws(r));
    lemma_leading_ws_bound(r);
    assert(x.skip(leading_ws(x) as int) =~= r.skip(leading_ws(r) as int));
}

/// A word followed by whitespace and more text: the word comes first.
proof fn lemma_words_word_then_space(w: Seq<char>, sp: char, r: Seq<char>)
    requires
        w.len() > 0,
        no_whitespace(w),
        char_whitespace(sp),
    ensures
        words(w + seq![sp] + r) == seq![w] + words(r),
{
    let s = w + seq![sp] + r;
    let rest = seq![sp] + r;
    assert(s =~= w + rest);
    assert(s[0] == w[0]);
    assert(leading_ws(s) == 0);
    assert(s.skip(0) =~= s);
    lemma_word_len_of(w, rest);
    assert(s.take(w.len() as int) =~= w);
    assert(s.skip(w.len() as int) =~= rest);
    lemma_words_after_space(sp, r);
}

/// Joining with `sep`, seen from the front.
pub proof fn lemma_join_front(ws: Seq<Seq<char>>, sep: Seq<char>)
    requires
        ws.len() >= 2,
    ensures
        join(ws, sep) == ws[0] + sep + join(ws.drop_first(), sep),
    decreases ws.len(),
{
    if ws.len() > 2 {
        lemma_join_front(ws.drop_last(), sep);
        assert(ws.drop_last().drop_first() =~= ws.drop_first().drop_last());
        assert(ws.drop_first().last() == ws.last());
        assert(ws.drop_last()[0] == ws[0]);
        assert(join(ws, sep) =~= ws[0] + sep + join(ws.drop_first(), sep));
    } else {
        assert(join(ws.drop_last(), sep) == ws.drop_last()[0]);
        assert(join(ws.drop_first(), sep) == ws.drop_first()[0]);
        assert(ws.drop_last()[0] == ws[0]);
        assert(ws.drop_first()[0] == ws.last());
    }
}

/// Splitting words joined by a whitespace character gives them back.
pub proof fn lemma_words_of_join(ws: Seq<Seq<char>>, sp: char)
    requires
        proper_words(ws),
        char_whitespace(sp),
    ensures
        words(join(ws, seq![sp])) == ws,
    decreases ws.len(),
{
    if ws.len() == 0 {
        assert(words(Seq::<char>::empty()) =~= Seq::<Seq<char>>::empty());
    } else if ws.len() == 1 {
        let w = ws[0];
        assert(ws[0].len() > 0 && no_whitespace(ws[0]));
        assert(w[0] == w[0]);
        assert(leading_ws(w) == 0);
        assert(w.skip(0) =~= w);
        lemma_word_len_of(w, Seq::<char>::empty());
        assert(w + Seq::<char>::empty() =~= w);
        assert(w.take(w.len() as int) =~= w);
        assert(w.skip(w.len() as int) =~= Seq::<char>::empty());
        assert(words(Seq::<char>::empty()) =~= Seq::<Seq<char>>::empty());
        assert(words(w) =~= seq![w]);
        assert(ws =~= seq![w]);
    } else {
        let rest = ws.drop_first();
        assert forall|i: int| 0 <= i < rest.len() implies #[trigger] rest[i].len() > 0 && no_whitespace(rest[i]) by {
            assert(rest[i] == ws[i + 1]);
        }
        lemma_words_of_join(rest, sp);
        lemma_join_front(ws, seq![sp]);
        assert(ws[0].len() > 0 && no_whitespace(ws[0]));
        lemma_words_word_then_space(ws[0], sp, join(rest, seq![sp]));
        assert(ws[0] + seq![sp] + join(rest, seq![sp]) == join(ws, seq![sp]));
        assert(ws =~= seq![ws[0]] + rest);
    }
}

/// `s` without leading and trailing whitespace (`str::trim`).
///
/// Trusted: std documents that whitespace is the Unicode White_Space
/// property, so the result is `spec_trim` over `char_whitespace`.
#[verifier::external_body]
pub(crate) fn trim(s: &str) -> (r: &str)
    ensures
        r@ == spec_trim(s@),
{
    s.trim()
}

/// The words of `s` (`str::split_whitespace`).
///
/// Trusted: std documents that the pieces are the sub-slices separated by
/// any amount of Unicode White_Space, without empty pieces: `words` over
/// `char_whitespace`.
#[verifier::external_body]
pub(crate) fn split_whitespace(s: &str) -> (r: Vec<&str>)
    ensures
        r@.map_values(|w: &str| w@) == words(s@),
{
    s.split_whitespace().collect()
}

/// Whether `s` ends with a line feed.
pub(crate) fn ends_with_newline(s: &str) -> (r: bool)
    ensures
        r == (s@.len() > 0 && s@.last() == '\n'),
{
    let n = s.unicode_len();
    if n == 0 {
        false
    } else {
        s.get_char(n - 1) == '\n'
    }
}

/// The position of the first `c` in `s`.
pub open spec fn index_of(s: Seq<char>, c: char) -> Option<nat>
    decreases s.len(),
{
    if s.len() == 0 {
        None
    } else if s[0] == c {
        Some(0)
    } else {
        match index_of(s.drop_first(), c) {
            Some(i) => Some(i + 1),
            None => None,
        }
    }
}

pub proof fn lemma_index_of_bound(s: Seq<char>, c: char)
    ensures
        index_of(s, c) matches Some(i) ==> i < s.len(),
    decreases s.len(),
{
    if s.len() > 0 {
        lemma_index_of_bound(s.drop_first(), c);
    }
}

/// The pieces of `s` between occurrences of `c`, empty pieces included.
pub open spec fn split_on(s: Seq<char>, c: char) -> Seq<Seq<char>>
    decreases s.len(),
{
    match index_of(s, c) {
        None => seq![s],
        Some(i) => {
            proof {
                lemma_index_of_bound(s, c);
            }
            seq![s.take(i as int)] + split_on(s.skip(i as int + 1), c)
        },
    }
}

/// The pieces of `s` between commas (`str::split`).
///
/// Trusted: std documents the pieces as the substrings separated by the
/// pattern, empty ones included: `split_on` with `','`.
#[verifier::external_body]
pub(crate) fn split_commas(s: &str) -> (r: Vec<&str>)
    ensures
        r@.map_values(|w: &str| w@) == split_on(s@, ','),
{
    s.split(',').collect()
}

/// `s` without `prefix`, if it starts with it.
pub(crate) fn strip_prefix<'a>(s: &'a str, prefix: &str) -> (r: Option<&'a str>)
    ensures
        r is Some <==> prefix@.is_prefix_of(s@),
        r matches Some(t) ==> t@ == s@.skip(prefix@.len() as int),
{
    let n = s.unicode_len();
    let m = prefix.unicode_len();
    if m > n {
        return None;
    }
    let mut i: usize = 0;
    while i < m
        invariant
            i <= m <= n,
            n == s@.len(),
            m == prefix@.len(),
            forall|j: int| 0 <= j < i ==> prefix@[j] == s@[j],
        decreases m - i,
    {
        if s.get_char(i) != prefix.get_char(i) {
            assert(!prefix@.is_prefix_of(s@)) by {
                if prefix@.is_prefix_of(s@) {
                    assert(prefix@[i as int] == s@.subrange(0, m as int)[i as int]);
                }
            }
            return None;
        }
        i = i + 1;
    }
    assert(prefix@ =~= s@.subrange(0, m as int));
    let rest = s.substring_char(m, n);
    assert(rest@ =~= s@.skip(m as int));
    Some(rest)
}

} // verus!
