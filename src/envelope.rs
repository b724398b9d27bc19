//! The JSON texts carried as payloads: the login envelope a client sends first,
//! and the application envelopes exchanged after it.
use vstd::prelude::*;
use vstd::slice::slice_to_vec;
use vstd::utf8::encode_utf8;
use vstd::string::StringExecFns;

verus! {

/// The string that a JSON document holds at a JSON pointer, if the bytes parse
/// as JSON and a string stands there.
pub uninterp spec fn json_text_at(doc: Seq<u8>, pointer: Seq<char>) -> Option<Seq<char>>;

/// A lowercase hexadecimal digit.
pub open spec fn hex_digit(n: u32) -> char {
    seq!['0', '1', '2', '3', '4', '5', '6', '7', '8', '9', 'a', 'b', 'c', 'd', 'e', 'f'][(n % 16) as int]
}

/// How one character stands inside a JSON string: a quote and a backslash are
/// escaped, the control characters below U+0020 take their short escape or a
/// `\u00XX` one, and every other character stands as it is.
pub open spec fn escaped_char(c: char) -> Seq<char> {
    if c == '"' {
        seq!['\\', '"']
    } else if c == '\\' {
        seq!['\\', '\\']
    } else if c == '\u{8}' {
        seq!['\\', 'b']
    } else if c == '\t' {
        seq!['\\', 't']
    } else if c == '\n' {
        seq!['\\', 'n']
    } else if c == '\u{c}' {
        seq!['\\', 'f']
    } else if c == '\r' {
        seq!['\\', 'r']
    } else if (c as u32) < 0x20 {
        seq!['\\', 'u', '0', '0', hex_digit((c as u32) / 16), hex_digit((c as u32) % 16)]
    } else {
        seq![c]
    }
}

/// The characters of a string, each as it stands inside a JSON string.
pub open spec fn escaped(s: Seq<char>) -> Seq<char>
    decreases s.len(),
{
    if s.len() == 0 {
        Seq::empty()
    } else {
        escaped(s.drop_last()) + escaped_char(s.last())
    }
}

/// The compact JSON text of a string: quoted, with the characters that need it
/// escaped.
pub open spec fn json_quoted(s: Seq<char>) -> Seq<char> {
    seq!['"'] + escaped(s) + seq!['"']
}

/// Relies on serde_json::from_slice, which parses the bytes into a
/// serde_json::Value, and on Value::pointer, which looks up an RFC 6901 pointer
/// in it; the result depends on the bytes and the pointer alone.
#[verifier::external_body]
fn text_at(doc: &[u8], pointer: &str) -> (r: Option<String>)
    ensures
        r matches Some(s) ==> json_text_at(doc@, pointer@) == Some(s@),
        r is None ==> json_text_at(doc@, pointer@) is None,
{
    let value = match serde_json::from_slice::<serde_json::Value>(doc) {
        Ok(value) => value,
        Err(_) => return None,
    };
    match value.pointer(pointer) {
        Some(serde_json::Value::String(text)) => Some(text.clone()),
        _ => None,
    }
}

/// Relies on serde_json's Display for Value::String, which writes the string
/// between quotes and escapes its characters through the table in ser.rs
/// (`ESCAPE`, with `\u00XX` in lowercase hexadecimal for the other control
/// characters).
#[verifier::external_body]
pub(crate) fn quote_json(s: &str) -> (r: String)
    ensures
        r@ == json_quoted(s@),
{
    serde_json::Value::String(s.to_string()).to_string()
}

/// The tag of an application envelope.
#[derive(Debug, Clone, Copy, PartialEq, Eq, Structural)]
pub enum CommandType {
    MessageFromUser,
}

/// A chat message: who wrote it and what.
pub struct MesasgeFromUser {
    pub username: String,
    pub text: String,
}

pub open spec fn message_type_tag() -> Seq<char> {
    seq!['M', 'e', 's', 's', 'a', 'g', 'e', 'F', 'r', 'o', 'm', 'U', 's', 'e', 'r']
}

/// The application envelope of a message, given the JSON texts of its user name
/// and its text.
pub open spec fn message_envelope(quoted_user: Seq<char>, quoted_text: Seq<char>) -> Seq<char> {
    "{\"Type\":\"MessageFromUser\",\"Data\":{\"username\":"@ + quoted_user + ",\"text\":"@ + quoted_text
        + "}}"@
}

/// The login envelope, given the JSON text of the user name.
pub open spec fn login_envelope(quoted_user: Seq<char>) -> Seq<char> {
    "{\"username\":"@ + quoted_user + "}"@
}

/// The message that an envelope carries, once its tag, user name and text have
/// been looked up.
pub open spec fn message_of(kind: Option<Seq<char>>, user: Option<Seq<char>>, text: Option<Seq<char>>) -> Option<(Seq<char>, Seq<char>)> {
    if kind == Some(message_type_tag()) && user is Some && text is Some {
        Some((user->0, text->0))
    } else {
        None
    }
}

/// The message that the payload `b` carries, if it is an application envelope of
/// type `MessageFromUser` whose data holds a string user name and a string text.
pub open spec fn decoded_message(b: Seq<u8>) -> Option<(Seq<char>, Seq<char>)> {
    message_of(
        json_text_at(b, "/Type"@),
        json_text_at(b, "/Data/username"@),
        json_text_at(b, "/Data/text"@),
    )
}

/// The user name that a login payload declares.
pub open spec fn login_name(b: Seq<u8>) -> Option<Seq<char>> {
    json_text_at(b, "/username"@)
}

/// The characters of an optional text.
pub open spec fn text_view(o: Option<String>) -> Option<Seq<char>> {
    match o {
        Some(s) => Some(s@),
        None => None,
    }
}

impl MesasgeFromUser {
    pub open spec fn view(&self) -> (Seq<char>, Seq<char>) {
        (self.username@, self.text@)
    }
}

/// Builds a message from the results of looking up the tag, the user name and
/// the text of an envelope.
pub fn message_from_fields(kind: Option<String>, username: Option<String>, text: Option<String>) -> (r: Option<MesasgeFromUser>)
    ensures
        r matches Some(m) ==> message_of(text_view(kind), text_view(username), text_view(text)) == Some(m.view()),
        r is None ==> message_of(text_view(kind), text_view(username), text_view(text)) is None,
{
    let tag = String::from_str("MessageFromUser");
    proof {
        reveal_strlit("MessageFromUser");
        assert(tag@ =~= message_type_tag());
    }
    match (kind, username, text) {
        (Some(k), Some(u), Some(t)) => {
            if k.eq(&tag) {
                Some(MesasgeFromUser { username: u, text: t })
            } else {
                None
            }
        },
        _ => None,
    }
}

/// Reads a payload as an application envelope; `None` when it is not valid JSON,
/// when its type is not `MessageFromUser`, or when its data lacks a string user
/// name or text.
pub fn decode_message(bytes: &[u8]) -> (r: Option<MesasgeFromUser>)
    ensures
        r matches Some(m) ==> decoded_message(bytes@) == Some(m.view()),
        r is None ==> decoded_message(bytes@) is None,
{
    let kind = text_at(bytes, "/Type");
    let username = text_at(bytes, "/Data/username");
    let text = text_at(bytes, "/Data/text");
    proof {
        assert(text_view(kind) == json_text_at(bytes@, "/Type"@));
        assert(text_view(username) == json_text_at(bytes@, "/Data/username"@));
        assert(text_view(text) == json_text_at(bytes@, "/Data/text"@));
    }
    message_from_fields(kind, username, text)
}

/// The user name that a login payload declares, if it is a JSON object with a
/// string `username`.
pub fn decode_login(bytes: &[u8]) -> (r: Option<String>)
    ensures
        r matches Some(u) ==> login_name(bytes@) == Some(u@),
        r is None ==> login_name(bytes@) is None,
{
    text_at(bytes, "/username")
}

/// The bytes of a text.
fn utf8_bytes(s: &String) -> (r: Vec<u8>)
    ensures
        r@ == encode_utf8(s@),
{
    slice_to_vec(s.as_str().as_bytes())
}

/// The application envelope that carries a message.
pub fn encode_message(message: &MesasgeFromUser) -> (r: String)
    ensures
        r@ == message_envelope(json_quoted(message.username@), json_quoted(message.text@)),
{
    let mut s = String::from_str("{\"Type\":\"MessageFromUser\",\"Data\":{\"username\":");
    let user = quote_json(message.username.as_str());
    s.append(user.as_str());
    s.append(",\"text\":");
    let text = quote_json(message.text.as_str());
    s.append(text.as_str());
    s.append("}}");
    s
}

/// The login envelope that declares a user name.
pub fn encode_login(username: &str) -> (r: Vec<u8>)
    ensures
        r@ == encode_utf8(login_envelope(json_quoted(username@))),
{
    let mut s = String::from_str("{\"username\":");
    let user = quote_json(username);
    s.append(user.as_str());
    s.append("}");
    utf8_bytes(&s)
}

} // verus!
