//! Budget chat: a chat room, with usernames checked on joining, messages
//! announced to the other members, and (in the second version) Boguscoin
//! addresses in chat lines rewritten to Tony's.

use vstd::prelude::*;
use vstd::string::*;

use crate::proxy::TONY_ADDRESS;
use crate::text::{
    char_alphanumeric, is_alphanumeric, join, spec_trim, split_commas, split_on, split_whitespace, str_bytes,
    strip_prefix, trim, words, char_whitespace,
    lemma_words_of_join, lemma_words_proper, no_whitespace,
};
use vstd::utf8::encode_utf8;

verus! {

/// Why a username is refused.
#[derive(Debug, Clone, Copy, PartialEq, Eq, Structural)]
pub enum UsernameError {
    /// Nothing but whitespace.
    Empty,
    /// More than 32 bytes.
    TooLong,
    /// A character that is not a letter or digit.
    ProhibitedChars,
}

/// The username that a first line gives: the line without surrounding
/// whitespace, which must be non-empty, at most 32 bytes long and made of
/// letters and digits.
pub open spec fn spec_username(line: Seq<char>) -> Result<Seq<char>, UsernameError> {
    let u = spec_trim(line);
    if u.len() == 0 {
        Err(UsernameError::Empty)
    } else if encode_utf8(u).len() > 32 {
        Err(UsernameError::TooLong)
    } else if !(forall|i: int| 0 <= i < u.len() ==> #[trigger] char_alphanumeric(u[i])) {
        Err(UsernameError::ProhibitedChars)
    } else {
        Ok(u)
    }
}

/// Check the username that a new member sends (see `spec_username`).
pub fn validate_username(line: &str) -> (r: Result<String, UsernameError>)
    ensures
        match spec_username(line@) {
            Ok(u) => r matches Ok(s) && s@ == u,
            Err(e) => r == Err::<String, UsernameError>(e),
        },
{
    let username = trim(line);
    let n = username.unicode_len();
    if n == 0 {
        return Err(UsernameError::Empty);
    }
    if str_bytes(username).len() > 32 {
        return Err(UsernameError::TooLong);
    }
    let mut i: usize = 0;
    while i < n
        invariant
            i <= n,
            n == username@.len(),
            n > 0,
            username@ == spec_trim(line@),
            encode_utf8(username@).len() <= 32,
            forall|j: int| 0 <= j < i ==> #[trigger] char_alphanumeric(username@[j]),
        decreases n - i,
    {
        if !is_alphanumeric(username.get_char(i)) {
            assert(!char_alphanumeric(username@[i as int]));
            assert(!(forall|j: int| 0 <= j < username@.len() ==> #[trigger] char_alphanumeric(username@[j])));
            assert(encode_utf8(username@).len() <= 32);
            assert(spec_username(line@) == Err::<Seq<char>, UsernameError>(UsernameError::ProhibitedChars));
            return Err(UsernameError::ProhibitedChars);
        }
        i = i + 1;
    }
    Ok(username.to_owned())
}

/// The kind of a chat room message.
#[derive(Debug, Clone, Copy, PartialEq, Eq, Structural)]
pub enum Class {
    Join,
    Disconnect,
    List,
    Chat,
}

/// A message to the members of the room.
#[derive(Debug, Clone)]
pub struct ChatMessage {
    pub contents: String,
    pub sender: String,
    /// For announcements about a member: that member.
    pub target_user: Option<String>,
    pub class: Class,
}

/// Mathematical value of a `ChatMessage`.
pub struct ChatMessageView {
    pub contents: Seq<char>,
    pub sender: Seq<char>,
    pub target_user: Option<Seq<char>>,
    pub class: Class,
}

impl View for ChatMessage {
    type V = ChatMessageView;

    open spec fn view(&self) -> ChatMessageView {
        ChatMessageView {
            contents: self.contents@,
            sender: self.sender@,
            target_user: match self.target_user {
                Some(u) => Some(u@),
                None => None,
            },
            class: self.class,
        }
    }
}

fn server_name() -> (r: String)
    ensures
        r@ == "server"@,
{
    String::from_str("server")
}

/// The announcement that `user` connected.
pub fn connected_message(user: &str) -> (m: ChatMessage)
    ensures
        m@ == (ChatMessageView {
            contents: "* ["@ + user@ + "] connected.\n"@,
            sender: "server"@,
            target_user: Some(user@),
            class: Class::Join,
        }),
{
    let mut contents = String::from_str("* [");
    contents.append(user);
    contents.append("] connected.\n");
    ChatMessage { contents, sender: server_name(), target_user: Some(user.to_owned()), class: Class::Join }
}

/// The announcement that `user` connected, in the room's second version.
pub fn has_connected_message(user: &str) -> (m: ChatMessage)
    ensures
        m@ == (ChatMessageView {
            contents: "* ["@ + user@ + "] has connected.\n"@,
            sender: "server"@,
            target_user: Some(user@),
            class: Class::Join,
        }),
{
    let mut contents = String::from_str("* [");
    contents.append(user);
    contents.append("] has connected.\n");
    ChatMessage { contents, sender: server_name(), target_user: Some(user.to_owned()), class: Class::Join }
}

/// The list of members online, for `user`, who just joined.
pub fn users_message(user: &str, usernames: &Vec<String>) -> (m: ChatMessage)
    ensures
        m@ == (ChatMessageView {
            contents: "* Users online: "@ + join(usernames@.map_values(|u: String| u@), ", "@) + "\n"@,
            sender: "server"@,
            target_user: Some(user@),
            class: Class::List,
        }),
{
    let mut contents = String::from_str("* Users online: ");
    let names = join_strings(usernames, ", ");
    contents.append(names.as_str());
    contents.append("\n");
    ChatMessage { contents, sender: server_name(), target_user: Some(user.to_owned()), class: Class::List }
}

/// The announcement that `user` left.
pub fn disconnected_message(user: &str) -> (m: ChatMessage)
    ensures
        m@ == (ChatMessageView {
            contents: "* "@ + user@ + " disconnected.\n"@,
            sender: "server"@,
            target_user: None,
            class: Class::Disconnect,
        }),
{
    let mut contents = String::from_str("* ");
    contents.append(user);
    contents.append(" disconnected.\n");
    ChatMessage { contents, sender: server_name(), target_user: None, class: Class::Disconnect }
}

/// The chat message for a line that `user` sent: the line without
/// surrounding whitespace, unless nothing is left.
pub fn chat_message(user: &str, line: &str) -> (m: Option<ChatMessage>)
    ensures
        spec_trim(line@).len() == 0 ==> m is None,
        spec_trim(line@).len() != 0 ==> (m matches Some(c) && c@ == (ChatMessageView {
            contents: "["@ + user@ + "] "@ + spec_trim(line@) + "\n"@,
            sender: user@,
            target_user: None,
            class: Class::Chat,
        })),
{
    let t = trim(line);
    if t.unicode_len() == 0 {
        return None;
    }
    let mut contents = String::from_str("[");
    contents.append(user);
    contents.append("] ");
    contents.append(t);
    contents.append("\n");
    Some(ChatMessage { contents, sender: user.to_owned(), target_user: None, class: Class::Chat })
}

/// The strings joined by `sep`.
fn join_strings(items: &Vec<String>, sep: &str) -> (r: String)
    ensures
        r@ == join(items@.map_values(|u: String| u@), sep@),
{
    let ghost all = items@.map_values(|u: String| u@);
    let mut out = String::new();
    let mut i: usize = 0;
    assert(all.take(0) =~= Seq::<Seq<char>>::empty());
    while i < items.len()
        invariant
            i <= items@.len(),
            all == items@.map_values(|u: String| u@),
            out@ == join(all.take(i as int), sep@),
        decreases items@.len() - i,
    {
        if i > 0 {
            out.append(sep);
        }
        out.append(items[i].as_str());
        assert(all.take(i + 1).drop_last() =~= all.take(i as int));
        i = i + 1;
        assert(out@ =~= join(all.take(i as int), sep@));
    }
    assert(all.take(i as int) =~= all);
    out
}

/// The pieces other than `me`.
pub open spec fn without(ws: Seq<Seq<char>>, me: Seq<char>) -> Seq<Seq<char>>
    decreases ws.len(),
{
    if ws.len() == 0 {
        seq![]
    } else if ws.last() == me {
        without(ws.drop_last(), me)
    } else {
        without(ws.drop_last(), me).push(ws.last())
    }
}

/// The trimmed pieces.
pub open spec fn trim_all(ws: Seq<Seq<char>>) -> Seq<Seq<char>> {
    ws.map_values(|w: Seq<char>| spec_trim(w))
}

/// The list of members as `me` sees it: the names after the prefix, split
/// at commas and trimmed, without `me`, joined again by ", ".
pub open spec fn list_for(rest: Seq<char>, me: Seq<char>) -> Seq<char> {
    "* Users online: "@ + join(without(trim_all(split_on(spec_trim(rest), ',')), me), ", "@) + "\n"@
}

/// A word that looks like a Boguscoin address: a 7 first, 26 to 35 bytes,
/// all ASCII letters and digits.
pub open spec fn is_boguscoin(w: Seq<char>) -> bool {
    &&& w.len() > 0
    &&& w[0] == '7'
    &&& 26 <= encode_utf8(w).len() <= 35
    &&& forall|i: int| 0 <= i < w.len() ==> #[trigger] crate::text::ascii_alphanumeric(w[i])
}

/// A word, or Tony's address in its place when it looks like a Boguscoin
/// address.
pub open spec fn replace_boguscoin(w: Seq<char>) -> Seq<char> {
    if is_boguscoin(w) {
        TONY_ADDRESS@
    } else {
        w
    }
}

/// The text with Boguscoin addresses replaced, words joined by single spaces.
pub open spec fn spec_rewrite(contents: Seq<char>) -> Seq<char> {
    join(words(contents).map_values(|w: Seq<char>| replace_boguscoin(w)), seq![' '])
}

/// The words of a rewritten text are the text's words, each one replaced
/// when it looks like a Boguscoin address.
proof fn lemma_rewrite_words(contents: Seq<char>)
    ensures
        words(spec_rewrite(contents)) == words(contents).map_values(|w: Seq<char>| replace_boguscoin(w)),
{
    let ws = words(contents);
    let rs = ws.map_values(|w: Seq<char>| replace_boguscoin(w));
    lemma_words_proper(contents);
    let tony = TONY_ADDRESS@;
    assert(tony.len() > 0 && no_whitespace(tony)) by {
        reveal_strlit("7YWHMfk9JZe0LM0g1ZauHuiSxhI");
        assert forall|i: int| 0 <= i < tony.len() implies !char_whitespace(#[trigger] tony[i]) by {
            assert(crate::text::ascii_alphanumeric(tony[i]));
        }
    }
    assert(char_whitespace(' '));
    assert forall|i: int| 0 <= i < rs.len() implies #[trigger] rs[i].len() > 0 && no_whitespace(rs[i]) by {
        assert(ws[i].len() > 0 && no_whitespace(ws[i]));
    }
    lemma_words_of_join(rs, ' ');
}

/// Rewriting keeps the words of a text, in order, and replaces exactly
/// those that look like a Boguscoin address (a `7` first, 26 to 35 bytes,
/// all ASCII letters and digits) by Tony's address; a word that does not
/// start with `7` is always kept.
pub proof fn lemma_rewrite_replaces_only_addresses(contents: Seq<char>)
    ensures
        words(spec_rewrite(contents)).len() == words(contents).len(),
        forall|i: int|
            0 <= i < words(contents).len() ==> #[trigger] words(spec_rewrite(contents))[i] == (if words(contents)[i].len()
                > 0 && words(contents)[i][0] == '7' && 26 <= encode_utf8(words(contents)[i]).len() <= 35 && (forall|j: int|
                0 <= j < words(contents)[i].len() ==> crate::text::ascii_alphanumeric(words(contents)[i][j])) {
                TONY_ADDRESS@
            } else {
                words(contents)[i]
            }),
        forall|i: int|
            0 <= i < words(contents).len() && (words(contents)[i].len() == 0 || words(contents)[i][0] != '7')
                ==> #[trigger] words(spec_rewrite(contents))[i] == words(contents)[i],
{
    lemma_rewrite_words(contents);
}

/// Rewriting is idempotent: a rewritten text is left as it is by a second
/// rewrite. Its words are the rewritten words again, and Tony's address,
/// made of letters and digits, is replaced by itself.
pub proof fn lemma_rewrite_idempotent(contents: Seq<char>)
    ensures
        spec_rewrite(spec_rewrite(contents)) == spec_rewrite(contents),
{
    let rs = words(contents).map_values(|w: Seq<char>| replace_boguscoin(w));
    lemma_rewrite_words(contents);
    assert(rs.map_values(|w: Seq<char>| replace_boguscoin(w)) =~= rs);
}

/// Who sees what: a chat line reaches every member but its sender, as sent
/// or rewritten; a join or leave announcement reaches every member but the
/// one it is about, unchanged; a member list reaches only the member it was
/// made for.
pub proof fn lemma_deliver_audience(m: ChatMessageView, me: Seq<char>, rewrite: bool)
    ensures
        m.class == Class::Chat ==> (spec_deliver(m, me, rewrite) is None <==> m.sender == me),
        m.class == Class::Chat && m.sender != me ==> spec_deliver(m, me, rewrite) == Some(
            if rewrite {
                spec_rewrite(m.contents)
            } else {
                m.contents
            },
        ),
        (m.class == Class::Join || m.class == Class::Disconnect) ==> spec_deliver(m, me, rewrite) == (if m.target_user
            == Some(me) {
            None
        } else {
            Some(m.contents)
        }),
        m.class == Class::List ==> (spec_deliver(m, me, rewrite) is Some <==> m.target_user == Some(me)),
{
}

/// The member list shown to `me` never holds `me`, and holds every other
/// name, in order: the names without `me`.
pub proof fn lemma_without_leaves_out_me(ws: Seq<Seq<char>>, me: Seq<char>)
    ensures
        without(ws, me) == ws.filter(|w: Seq<char>| w != me),
        forall|i: int| 0 <= i < without(ws, me).len() ==> #[trigger] without(ws, me)[i] != me,
    decreases ws.len(),
{
    reveal(Seq::filter);
    if ws.len() > 0 {
        lemma_without_leaves_out_me(ws.drop_last(), me);
        let w0 = without(ws.drop_last(), me);
        assert forall|i: int| 0 <= i < without(ws, me).len() implies #[trigger] without(ws, me)[i] != me by {
            if i < w0.len() {
                assert(without(ws, me)[i] == w0[i]);
            }
        }
    }
}

/// What `me` receives of a message, if anything: announcements about `me`
/// and chat lines from `me` are not shown; the member list is shown to the
/// one it was made for only, without that member's own name. With
/// `rewrite`, chat lines have their Boguscoin addresses replaced.
pub open spec fn spec_deliver(m: ChatMessageView, me: Seq<char>, rewrite: bool) -> Option<Seq<char>> {
    match m.class {
        Class::List => if m.target_user == Some(me) {
            if "* Users online: "@.is_prefix_of(m.contents) {
                Some(list_for(m.contents.skip("* Users online: "@.len() as int), me))
            } else {
                Some(m.contents)
            }
        } else {
            None
        },
        Class::Join | Class::Disconnect => if m.target_user == Some(me) {
            None
        } else {
            Some(m.contents)
        },
        Class::Chat => if m.sender == me {
            None
        } else if rewrite {
            Some(spec_rewrite(m.contents))
        } else {
            Some(m.contents)
        },
    }
}

fn is_ascii_alnum(c: char) -> (r: bool)
    ensures
        r == crate::text::ascii_alphanumeric(c),
{
    ('a' <= c && c <= 'z') || ('A' <= c && c <= 'Z') || ('0' <= c && c <= '9')
}

/// Whether a word looks like a Boguscoin address (see `is_boguscoin`).
fn looks_like_boguscoin(token: &str) -> (r: bool)
    ensures
        r == is_boguscoin(token@),
{
    let n = token.unicode_len();
    if n == 0 || token.get_char(0) != '7' {
        return false;
    }
    let len = str_bytes(token).len();
    if len < 26 || len > 35 {
        return false;
    }
    let mut i: usize = 0;
    while i < n
        invariant
            i <= n,
            n == token@.len(),
            forall|j: int| 0 <= j < i ==> #[trigger] crate::text::ascii_alphanumeric(token@[j]),
        decreases n - i,
    {
        if !is_ascii_alnum(token.get_char(i)) {
            return false;
        }
        i = i + 1;
    }
    true
}

/// Replace Boguscoin addresses in a chat message (see `spec_rewrite`); the
/// other fields are kept.
pub fn handle_msg(msg: ChatMessage) -> (r: ChatMessage)
    ensures
        r@ == (ChatMessageView { contents: spec_rewrite(msg@.contents), ..msg@ }),
{
    let ws = split_whitespace(msg.contents.as_str());
    let ghost wv = ws@.map_values(|w: &str| w@);
    let ghost rw = wv.map_values(|w: Seq<char>| replace_boguscoin(w));
    let mut out = String::new();
    let mut i: usize = 0;
    assert(rw.take(0) =~= Seq::<Seq<char>>::empty());
    while i < ws.len()
        invariant
            i <= ws@.len(),
            wv == ws@.map_values(|w: &str| w@),
            wv == words(msg.contents@),
            rw == wv.map_values(|w: Seq<char>| replace_boguscoin(w)),
            out@ == join(rw.take(i as int), seq![' ']),
        decreases ws@.len() - i,
    {
        if i > 0 {
            crate::text::push_char(&mut out, ' ');
        }
        let w = ws[i];
        if looks_like_boguscoin(w) {
            out.append(TONY_ADDRESS);
        } else {
            out.append(w);
        }
        assert(rw.take(i + 1).drop_last() =~= rw.take(i as int));
        i = i + 1;
        assert(out@ =~= join(rw.take(i as int), seq![' ']));
    }
    assert(rw.take(i as int) =~= rw);
    ChatMessage { contents: out, ..msg }
}

/// What `me` receives of a message (see `spec_deliver`).
pub fn deliver(msg: &ChatMessage, me: &str, rewrite: bool) -> (r: Option<String>)
    ensures
        match r {
            Some(s) => spec_deliver(msg@, me@, rewrite) == Some(s@),
            None => spec_deliver(msg@, me@, rewrite) is None,
        },
{
    let me_owned = me.to_owned();
    match msg.class {
        Class::List => {
            let mine = match &msg.target_user {
                Some(t) => *t == me_owned,
                None => false,
            };
            if !mine {
                return None;
            }
            match strip_prefix(msg.contents.as_str(), "* Users online: ") {
                Some(rest) => {
                    let pieces = split_commas(trim(rest));
                    let ghost pv = pieces@.map_values(|w: &str| w@);
                    let ghost kept = without(trim_all(pv), me@);
                    let mut names: Vec<String> = Vec::new();
                    let mut i: usize = 0;
                    assert(pv.take(0) =~= Seq::<Seq<char>>::empty());
                    assert(names@.map_values(|u: String| u@) =~= without(trim_all(pv.take(0)), me@));
                    while i < pieces.len()
                        invariant
                            i <= pieces@.len(),
                            pv == pieces@.map_values(|w: &str| w@),
                            me_owned@ == me@,
                            names@.map_values(|u: String| u@) == without(trim_all(pv.take(i as int)), me@),
                        decreases pieces@.len() - i,
                    {
                        let p = trim(pieces[i]);
                        let ghost before = names@;
                        assert(trim_all(pv.take(i + 1)).drop_last() =~= trim_all(pv.take(i as int)));
                        assert(trim_all(pv.take(i + 1)).last() == p@);
                        let owned = p.to_owned();
                        if owned != me_owned {
                            names.push(owned);
                            assert(names@.map_values(|u: String| u@) =~= before.map_values(|u: String| u@).push(p@));
                        }
                        i = i + 1;
                    }
                    assert(pv.take(i as int) =~= pv);
                    let mut contents = String::from_str("* Users online: ");
                    let joined = join_strings(&names, ", ");
                    contents.append(joined.as_str());
                    contents.append("\n");
                    Some(contents)
                },
                None => Some(msg.contents.clone()),
            }
        },
        Class::Join | Class::Disconnect => {
            let mine = match &msg.target_user {
                Some(t) => *t == me_owned,
                None => false,
            };
            if mine {
                None
            } else {
                Some(msg.contents.clone())
            }
        },
        Class::Chat => {
            if msg.sender == me_owned {
                None
            } else if rewrite {
                let copy = ChatMessage {
                    contents: msg.contents.clone(),
                    sender: msg.sender.clone(),
                    target_user: None,
                    class: msg.class,
                };
                Some(handle_msg(copy).contents)
            } else {
                Some(msg.contents.clone())
            }
        },
    }
}

} // verus!
