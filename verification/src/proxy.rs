//! Mob in the middle: a chat proxy that rewrites Boguscoin addresses.
//!
//! Every word of a line that the Boguscoin pattern matches is replaced by
//! Tony's address. Words are separated by whitespace; the rewritten line has
//! its words joined by single spaces and keeps a final line feed.

use vstd::prelude::*;
use vstd::string::*;

use vstd::utf8::encode_utf8;

use crate::text::{ends_with_newline, join, lossy_string, push_char, split_whitespace, str_bytes, utf8_lossy, words};

verus! {

#[verifier::external_type_specification]
#[verifier::external_body]
pub struct ExRegex(regex::Regex);

/// Tony's Boguscoin address.
pub const TONY_ADDRESS: &'static str = "7YWHMfk9JZe0LM0g1ZauHuiSxhI";

/// A Boguscoin address: a 7 and 25 to 34 letters or digits, standing alone.
pub const BOGUSCOIN_PATTERN: &'static str = "(?:^|\\s)(7[a-zA-Z0-9]{25,34})(?:\\s|$)";

/// Whether the regular expression `pattern` matches somewhere in `text`, as
/// the `regex` crate decides it.
pub uninterp spec fn regex_is_match(pattern: Seq<char>, text: Seq<char>) -> bool;

/// Whether `pattern` compiles as a regular expression, as the `regex` crate
/// decides it (its syntax, and the default size limit).
pub uninterp spec fn regex_compiles(pattern: Seq<char>) -> bool;

/// A compiled regular expression, with the pattern it was compiled from.
pub struct Matcher {
    pattern: String,
    re: regex::Regex,
}

impl Matcher {
    /// The pattern this matcher was compiled from.
    pub closed spec fn pattern(&self) -> Seq<char> {
        self.pattern@
    }

    /// A matcher is only made from a pattern that compiles, and it keeps
    /// that pattern beside the compiled expression.
    #[verifier::type_invariant]
    spec fn pattern_compiles(&self) -> bool {
        regex_compiles(self.pattern@)
    }

    /// The pattern of any matcher compiles.
    pub fn compiled_pattern(&self) -> (r: &str)
        ensures
            r@ == self.pattern(),
            regex_compiles(r@),
    {
        proof {
            use_type_invariant(self);
        }
        self.pattern.as_str()
    }
}

/// Compiles a pattern (`regex::Regex::new`).
///
/// Trusted: the compiled expression is kept with its pattern, so that the
/// matcher's pattern is the one given; a compile error becomes `None`.
/// Whether the pattern compiles is named `regex_compiles`, a function of the
/// pattern alone; which patterns those are is not stated.
#[verifier::external_body]
fn compile(pattern: &str) -> (r: Option<Matcher>)
    ensures
        r is Some <==> regex_compiles(pattern@),
        r matches Some(m) ==> m.pattern() == pattern@,
{
    match regex::Regex::new(pattern) {
        Ok(re) => Some(Matcher { pattern: pattern.to_string(), re }),
        Err(_) => None,
    }
}

/// Whether the matcher matches somewhere in `text` (`regex::Regex::is_match`).
///
/// Trusted: the result is named `regex_is_match` of the matcher's pattern and
/// the text, a function of these two alone.
#[verifier::external_body]
fn matches(m: &Matcher, text: &str) -> (r: bool)
    ensures
        r == regex_is_match(m.pattern(), text@),
{
    m.re.is_match(text)
}

/// A pattern that does not compile.
#[derive(Debug, Clone, Copy, PartialEq, Eq, Structural)]
pub enum PatternError {
    Invalid,
}

impl Matcher {
    /// Compile `pattern`: it succeeds exactly when the pattern compiles.
    pub fn new(pattern: &str) -> (r: Result<Matcher, PatternError>)
        ensures
            r is Ok <==> regex_compiles(pattern@),
            r matches Ok(m) ==> m.pattern() == pattern@,
            r is Err ==> r == Err::<Matcher, PatternError>(PatternError::Invalid),
    {
        match compile(pattern) {
            Some(m) => Ok(m),
            None => Err(PatternError::Invalid),
        }
    }

    /// The matcher for Boguscoin addresses; it is made exactly when the
    /// Boguscoin pattern compiles.
    pub fn boguscoin() -> (r: Result<Matcher, PatternError>)
        ensures
            r is Ok <==> regex_compiles(BOGUSCOIN_PATTERN@),
            r matches Ok(m) ==> m.pattern() == BOGUSCOIN_PATTERN@,
    {
        Matcher::new(BOGUSCOIN_PATTERN)
    }
}

/// A word, or Tony's address in its place when the pattern matches it.
pub open spec fn rewrite_word(pattern: Seq<char>, w: Seq<char>) -> Seq<char> {
    if regex_is_match(pattern, w) {
        TONY_ADDRESS@
    } else {
        w
    }
}

/// The words rewritten.
pub open spec fn rewrite_words(pattern: Seq<char>, ws: Seq<Seq<char>>) -> Seq<Seq<char>> {
    ws.map_values(|w: Seq<char>| rewrite_word(pattern, w))
}

/// A line with each matching word replaced by Tony's address, the words
/// joined by single spaces, and its final line feed kept.
pub open spec fn spec_process_line(pattern: Seq<char>, line: Seq<char>) -> Seq<char> {
    let out = join(rewrite_words(pattern, words(line)), seq![' ']);
    if line.len() > 0 && line.last() == '\n' {
        out.push('\n')
    } else {
        out
    }
}

/// Rewrite the Boguscoin addresses of a line (see `spec_process_line`).
pub fn process_line(line: &str, boguscoin_regex: &Matcher) -> (r: String)
    ensures
        r@ == spec_process_line(boguscoin_regex.pattern(), line@),
{
    let ws = split_whitespace(line);
    let ghost wv = ws@.map_values(|w: &str| w@);
    let ghost pat = boguscoin_regex.pattern();
    let mut out = String::new();
    let mut i: usize = 0;
    assert(rewrite_words(pat, wv.take(0)) =~= Seq::<Seq<char>>::empty());
    while i < ws.len()
        invariant
            i <= ws@.len(),
            wv == ws@.map_values(|w: &str| w@),
            wv == words(line@),
            pat == boguscoin_regex.pattern(),
            out@ == join(rewrite_words(pat, wv.take(i as int)), seq![' ']),
        decreases ws@.len() - i,
    {
        let ghost prev = rewrite_words(pat, wv.take(i as int));
        if i > 0 {
            push_char(&mut out, ' ');
        }
        let w = ws[i];
        let ghost wi = w@;
        assert(wi == wv[i as int]);
        if matches(boguscoin_regex, w) {
            out.append(TONY_ADDRESS);
        } else {
            out.append(w);
        }
        let ghost next = rewrite_words(pat, wv.take(i + 1));
        assert(next.drop_last() =~= prev);
        assert(next.last() == rewrite_word(pat, wi));
        i = i + 1;
        assert(out@ =~= join(next, seq![' ']));
    }
    assert(wv.take(i as int) =~= wv);
    if ends_with_newline(line) {
        push_char(&mut out, '\n');
    }
    out
}

/// Rewrite one line as received: the bytes are decoded as UTF-8 (invalid
/// sequences replaced), rewritten by `process_line`, and encoded again.
pub fn process_line_bytes(line: &[u8], boguscoin_regex: &Matcher) -> (r: Vec<u8>)
    ensures
        r@ == encode_utf8(spec_process_line(boguscoin_regex.pattern(), utf8_lossy(line@))),
{
    let text = lossy_string(line);
    let out = process_line(text.as_str(), boguscoin_regex);
    str_bytes(out.as_str())
}

} // verus!
