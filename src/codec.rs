//! The text form of the envelopes: compact JSON with lower-snake-case keys, the
//! command as a single-key object, and strings escaped the way common JSON
//! writers escape them (`"` and `\`, the short escapes, `\u00xx` for the other
//! control characters). Decoding accepts exactly the texts that encoding yields.
use vstd::prelude::*;

use crate::client_message::{
    Command, CreateRoom, JoinRoom, JoinUser, LeaveRoom, LeaveUser, Login, Message,
};
use crate::wire::{ClientEnvelope, ClientMessage, ServerEnvelope, ServerMessage};

verus! {

/// The payload is not the text of an envelope.
#[derive(Clone, Copy, Debug, PartialEq, Eq)]
pub struct DecodeError;

/// The digit for `d` in base sixteen, lower case (also the decimal digit for `d < 10`).
pub open spec fn digit_char(d: u32) -> char {
    if d == 0 { '0' }
    else if d == 1 { '1' }
    else if d == 2 { '2' }
    else if d == 3 { '3' }
    else if d == 4 { '4' }
    else if d == 5 { '5' }
    else if d == 6 { '6' }
    else if d == 7 { '7' }
    else if d == 8 { '8' }
    else if d == 9 { '9' }
    else if d == 10 { 'a' }
    else if d == 11 { 'b' }
    else if d == 12 { 'c' }
    else if d == 13 { 'd' }
    else if d == 14 { 'e' }
    else { 'f' }
}

/// The value of a lower-case hexadecimal digit.
pub open spec fn hex_value(c: char) -> Option<u32> {
    if c == '0' { Some(0) }
    else if c == '1' { Some(1) }
    else if c == '2' { Some(2) }
    else if c == '3' { Some(3) }
    else if c == '4' { Some(4) }
    else if c == '5' { Some(5) }
    else if c == '6' { Some(6) }
    else if c == '7' { Some(7) }
    else if c == '8' { Some(8) }
    else if c == '9' { Some(9) }
    else if c == 'a' { Some(10) }
    else if c == 'b' { Some(11) }
    else if c == 'c' { Some(12) }
    else if c == 'd' { Some(13) }
    else if c == 'e' { Some(14) }
    else if c == 'f' { Some(15) }
    else { None }
}

/// How one character stands inside a JSON string literal.
pub open spec fn escape_char(c: char) -> Seq<char> {
    if c == '"' { seq!['\\', '"'] }
    else if c == '\\' { seq!['\\', '\\'] }
    else if c == '\n' { seq!['\\', 'n'] }
    else if c == '\r' { seq!['\\', 'r'] }
    else if c == '\t' { seq!['\\', 't'] }
    else if c == '\x08' { seq!['\\', 'b'] }
    else if c == '\x0c' { seq!['\\', 'f'] }
    else if (c as u32) < 32 {
        seq!['\\', 'u', '0', '0', digit_char((c as u32) / 16), digit_char((c as u32) % 16)]
    } else { seq![c] }
}

/// The body of a JSON string literal for `s`, without the quotes.
pub open spec fn escape(s: Seq<char>) -> Seq<char>
    decreases s.len(),
{
    if s.len() == 0 { Seq::empty() } else { escape(s.drop_last()) + escape_char(s.last()) }
}

/// The JSON string literal for `s`.
pub open spec fn json_string(s: Seq<char>) -> Seq<char> {
    seq!['"'] + escape(s) + seq!['"']
}

/// The decimal digits of `n`, without leading zeros.
pub open spec fn decimal(n: nat) -> Seq<char>
    decreases n,
{
    if n < 10 { seq![digit_char(n as u32)] }
    else { decimal(n / 10) + seq![digit_char((n % 10) as u32)] }
}

/// The JSON text of a command.
pub open spec fn command_json(c: Command) -> Seq<char> {
    match c {
        Command::Login(n) => "{\"login\":{\"name\":"@ + json_string(n) + "}}"@,
        Command::JoinRoom => "{\"join_room\":{}}"@,
        Command::JoinUser => "{\"join_user\":{}}"@,
        Command::CreateRoom => "{\"create_room\":{}}"@,
        Command::LeaveRoom => "{\"leave_room\":{}}"@,
        Command::LeaveUser => "{\"leave_user\":{}}"@,
        Command::SendMessage(t) => "{\"send_message\":"@ + json_string(t) + "}"@,
    }
}

/// The JSON text of an optional command (`null` when absent).
pub open spec fn opt_command_json(c: Option<Command>) -> Seq<char> {
    match c {
        Some(c) => command_json(c),
        None => "null"@,
    }
}

/// The text of a client envelope.
pub open spec fn client_json(v: ClientEnvelope) -> Seq<char> {
    "{\"topic\":"@ + json_string(v.topic) + ",\"message\":"@ + opt_command_json(v.command) + "}"@
}

/// The text of a server envelope.
pub open spec fn server_json(v: ServerEnvelope) -> Seq<char> {
    "{\"topic\":"@ + json_string(v.topic) + ",\"sequence\":"@ + decimal(v.sequence)
        + ",\"message\":"@ + match v.message {
        Some(m) => json_string(m),
        None => "null"@,
    } + "}"@
}

/// One encoded character at the front of `s` (not the closing quote), and what follows it.
pub open spec fn char_token(s: Seq<char>) -> Option<(char, Seq<char>)> {
    if s.len() == 0 || s[0] == '"' {
        None
    } else if s[0] != '\\' {
        if (s[0] as u32) < 32 { None } else { Some((s[0], s.drop_first())) }
    } else if s.len() < 2 {
        None
    } else if s[1] == '"' {
        Some(('"', s.skip(2)))
    } else if s[1] == '\\' {
        Some(('\\', s.skip(2)))
    } else if s[1] == 'n' {
        Some(('\n', s.skip(2)))
    } else if s[1] == 'r' {
        Some(('\r', s.skip(2)))
    } else if s[1] == 't' {
        Some(('\t', s.skip(2)))
    } else if s[1] == 'b' {
        Some(('\x08', s.skip(2)))
    } else if s[1] == 'f' {
        Some(('\x0c', s.skip(2)))
    } else if s[1] == 'u' && s.len() >= 6 && s[2] == '0' && s[3] == '0' && (s[4] == '0' || s[4]
        == '1') && hex_value(s[5]) is Some {
        let code = hex_value(s[4])->Some_0 * 16 + hex_value(s[5])->Some_0;
        if code == 8 || code == 9 || code == 10 || code == 12 || code == 13 {
            None
        } else {
            Some(((code as u32) as char, s.skip(6)))
        }
    } else {
        None
    }
}

/// The characters of a string literal whose opening quote is already read, and
/// what follows its closing quote.
pub open spec fn unescape(s: Seq<char>) -> Option<(Seq<char>, Seq<char>)>
    decreases s.len(),
{
    if s.len() > 0 && s[0] == '"' {
        Some((Seq::empty(), s.drop_first()))
    } else {
        match char_token(s) {
            Some((c, r)) => if r.len() < s.len() {
                match unescape(r) {
                    Some((u, r2)) => Some((seq![c] + u, r2)),
                    None => None,
                }
            } else {
                None
            },
            None => None,
        }
    }
}

/// A string literal at the front of `s`, and what follows it.
pub open spec fn parse_string(s: Seq<char>) -> Option<(Seq<char>, Seq<char>)> {
    if s.len() > 0 && s[0] == '"' { unescape(s.drop_first()) } else { None }
}

/// What follows `lit` in `s`, where `s` starts with `lit`.
pub open spec fn strip(lit: Seq<char>, s: Seq<char>) -> Option<Seq<char>> {
    if lit.len() <= s.len() && s.take(lit.len() as int) == lit {
        Some(s.skip(lit.len() as int))
    } else {
        None
    }
}

/// A command with a string argument: `lit`, a string literal, then `close`.
pub open spec fn parse_with_string(lit: Seq<char>, close: Seq<char>, s: Seq<char>) -> Option<(Seq<char>, Seq<char>)> {
    match strip(lit, s) {
        Some(r) => match parse_string(r) {
            Some((t, r2)) => match strip(close, r2) {
                Some(r3) => Some((t, r3)),
                None => None,
            },
            None => None,
        },
        None => None,
    }
}

/// An optional command at the front of `s`, and what follows it.
pub open spec fn parse_command(s: Seq<char>) -> Option<(Option<Command>, Seq<char>)> {
    if strip("null"@, s) is Some {
        Some((None, strip("null"@, s)->Some_0))
    } else if parse_with_string("{\"login\":{\"name\":"@, "}}"@, s) is Some {
        let (n, r) = parse_with_string("{\"login\":{\"name\":"@, "}}"@, s)->Some_0;
        Some((Some(Command::Login(n)), r))
    } else if strip("{\"join_room\":{}}"@, s) is Some {
        Some((Some(Command::JoinRoom), strip("{\"join_room\":{}}"@, s)->Some_0))
    } else if strip("{\"join_user\":{}}"@, s) is Some {
        Some((Some(Command::JoinUser), strip("{\"join_user\":{}}"@, s)->Some_0))
    } else if strip("{\"create_room\":{}}"@, s) is Some {
        Some((Some(Command::CreateRoom), strip("{\"create_room\":{}}"@, s)->Some_0))
    } else if strip("{\"leave_room\":{}}"@, s) is Some {
        Some((Some(Command::LeaveRoom), strip("{\"leave_room\":{}}"@, s)->Some_0))
    } else if strip("{\"leave_user\":{}}"@, s) is Some {
        Some((Some(Command::LeaveUser), strip("{\"leave_user\":{}}"@, s)->Some_0))
    } else if parse_with_string("{\"send_message\":"@, "}"@, s) is Some {
        let (t, r) = parse_with_string("{\"send_message\":"@, "}"@, s)->Some_0;
        Some((Some(Command::SendMessage(t)), r))
    } else {
        None
    }
}

/// The client envelope that `s` is the text of, read front to back.
pub open spec fn parse_client(s: Seq<char>) -> Option<ClientEnvelope> {
    match strip("{\"topic\":"@, s) {
        Some(r1) => match parse_string(r1) {
            Some((topic, r2)) => match strip(",\"message\":"@, r2) {
                Some(r3) => match parse_command(r3) {
                    Some((command, r4)) => if r4 == "}"@ {
                        Some(ClientEnvelope { topic, command })
                    } else {
                        None
                    },
                    None => None,
                },
                None => None,
            },
            None => None,
        },
        None => None,
    }
}

proof fn lemma_escape_concat(a: Seq<char>, b: Seq<char>)
    ensures
        escape(a + b) == escape(a) + escape(b),
    decreases b.len(),
{
    if b.len() == 0 {
        assert(a + b =~= a);
        assert(escape(a) + escape(b) =~= escape(a));
    } else {
        lemma_escape_concat(a, b.drop_last());
        assert((a + b).drop_last() =~= a + b.drop_last());
        assert((a + b).last() == b.last());
        assert(escape(a) + escape(b) =~= escape(a) + escape(b.drop_last()) + escape_char(b.last()));
    }
}

proof fn lemma_escape_cons(c: char, a: Seq<char>)
    ensures
        escape(seq![c] + a) == escape_char(c) + escape(a),
{
    lemma_escape_concat(seq![c], a);
    assert(seq![c].drop_last() =~= Seq::<char>::empty());
    assert(seq![c].last() == c);
    assert(escape(Seq::<char>::empty()) == Seq::<char>::empty());
    assert(escape(seq![c]) == escape(seq![c].drop_last()) + escape_char(c));
    assert(Seq::<char>::empty() + escape_char(c) =~= escape_char(c));
}

proof fn lemma_digit_hex(d: u32)
    requires
        d < 16,
    ensures
        hex_value(digit_char(d)) == Some(d),
{
}

proof fn lemma_hex_digit(c: char)
    requires
        hex_value(c) is Some,
    ensures
        digit_char(hex_value(c)->Some_0) == c,
{
}

proof fn lemma_char_token_escape(c: char, r: Seq<char>)
    ensures
        char_token(escape_char(c) + r) == Some((c, r)),
{
    let s = escape_char(c) + r;
    if (c as u32) < 32 && c != '\n' && c != '\r' && c != '\t' && c != '\x08' && c != '\x0c' {
        let u = c as u32;
        lemma_digit_hex(u / 16);
        lemma_digit_hex(u % 16);
        assert(s[4] == digit_char(u / 16));
        assert(s[5] == digit_char(u % 16));
        assert(u / 16 == 0 || u / 16 == 1);
        assert(((u as u32) as char) == c);
        assert(s.skip(6) =~= r);
    } else if c == '"' || c == '\\' || c == '\n' || c == '\r' || c == '\t' || c == '\x08' || c == '\x0c' {
        assert(s.skip(2) =~= r);
    } else {
        assert(s.drop_first() =~= r);
    }
}

proof fn lemma_char_token_sound(s: Seq<char>)
    requires
        char_token(s) is Some,
    ensures
        s == escape_char(char_token(s)->Some_0.0) + char_token(s)->Some_0.1,
{
    let (c, r) = char_token(s)->Some_0;
    if s[0] != '\\' {
        assert(s =~= seq![c] + r);
    } else if s[1] == 'u' && s[1] != '"' {
        let h = hex_value(s[4])->Some_0;
        let l = hex_value(s[5])->Some_0;
        let code = (h * 16 + l) as u32;
        assert(code < 32);
        assert((c as u32) == code);
        assert(code / 16 == h && code % 16 == l);
        lemma_hex_digit(s[4]);
        lemma_hex_digit(s[5]);
        assert(s =~= escape_char(c) + r);
    } else {
        assert(s =~= escape_char(c) + r);
    }
}

proof fn lemma_unescape_escape(a: Seq<char>, r: Seq<char>)
    ensures
        unescape(escape(a) + seq!['"'] + r) == Some((a, r)),
    decreases a.len(),
{
    let s = escape(a) + seq!['"'] + r;
    if a.len() == 0 {
        assert(s =~= seq!['"'] + r);
        assert(s.drop_first() =~= r);
    } else {
        let c = a[0];
        let t = a.drop_first();
        assert(a =~= seq![c] + t);
        lemma_escape_cons(c, t);
        let rest = escape(t) + seq!['"'] + r;
        assert(s =~= escape_char(c) + rest);
        lemma_char_token_escape(c, rest);
        assert(escape_char(c).len() > 0);
        assert(s[0] == escape_char(c)[0]);
        lemma_unescape_escape(t, r);
        assert(seq![c] + t =~= a);
    }
}

proof fn lemma_unescape_sound(s: Seq<char>)
    requires
        unescape(s) is Some,
    ensures
        s == escape(unescape(s)->Some_0.0) + seq!['"'] + unescape(s)->Some_0.1,
    decreases s.len(),
{
    let (a, r2) = unescape(s)->Some_0;
    if s.len() > 0 && s[0] == '"' {
        assert(s =~= escape(a) + seq!['"'] + r2);
    } else {
        let (c, r) = char_token(s)->Some_0;
        lemma_char_token_sound(s);
        lemma_unescape_sound(r);
        let u = unescape(r)->Some_0.0;
        assert(a == seq![c] + u);
        lemma_escape_cons(c, u);
        assert(s =~= escape(a) + seq!['"'] + r2);
    }
}

proof fn lemma_parse_string(a: Seq<char>, r: Seq<char>)
    ensures
        parse_string(json_string(a) + r) == Some((a, r)),
{
    let s = json_string(a) + r;
    assert(s.drop_first() =~= escape(a) + seq!['"'] + r);
    lemma_unescape_escape(a, r);
}

proof fn lemma_parse_string_sound(s: Seq<char>)
    requires
        parse_string(s) is Some,
    ensures
        s == json_string(parse_string(s)->Some_0.0) + parse_string(s)->Some_0.1,
{
    lemma_unescape_sound(s.drop_first());
    assert(s =~= seq!['"'] + s.drop_first());
    assert(s =~= json_string(parse_string(s)->Some_0.0) + parse_string(s)->Some_0.1);
}

proof fn lemma_strip(lit: Seq<char>, r: Seq<char>)
    ensures
        strip(lit, lit + r) == Some(r),
{
    assert((lit + r).take(lit.len() as int) =~= lit);
    assert((lit + r).skip(lit.len() as int) =~= r);
}

proof fn lemma_strip_sound(lit: Seq<char>, s: Seq<char>)
    requires
        strip(lit, s) is Some,
    ensures
        s == lit + strip(lit, s)->Some_0,
{
    assert(s =~= s.take(lit.len() as int) + s.skip(lit.len() as int));
}

proof fn lemma_strip_differs(lit: Seq<char>, s: Seq<char>, i: int)
    requires
        0 <= i < lit.len(),
        i < s.len(),
        s[i] != lit[i],
    ensures
        strip(lit, s) is None,
{
    if lit.len() <= s.len() && s.take(lit.len() as int) == lit {
        assert(s.take(lit.len() as int)[i] == s[i]);
    }
}

proof fn lemma_parse_with_string(lit: Seq<char>, close: Seq<char>, t: Seq<char>, r: Seq<char>)
    ensures
        parse_with_string(lit, close, lit + json_string(t) + close + r) == Some((t, r)),
{
    let s = lit + json_string(t) + close + r;
    assert(s =~= lit + (json_string(t) + (close + r)));
    lemma_strip(lit, json_string(t) + (close + r));
    lemma_parse_string(t, close + r);
    lemma_strip(close, r);
}

proof fn lemma_parse_with_string_sound(lit: Seq<char>, close: Seq<char>, s: Seq<char>)
    requires
        parse_with_string(lit, close, s) is Some,
    ensures
        s == lit + json_string(parse_with_string(lit, close, s)->Some_0.0) + close
            + parse_with_string(lit, close, s)->Some_0.1,
{
    let r = strip(lit, s)->Some_0;
    lemma_strip_sound(lit, s);
    lemma_parse_string_sound(r);
    let (t, r2) = parse_string(r)->Some_0;
    lemma_strip_sound(close, r2);
    assert(s =~= lit + json_string(t) + close + strip(close, r2)->Some_0);
}

proof fn lemma_parse_command(c: Option<Command>, r: Seq<char>)
    ensures
        parse_command(opt_command_json(c) + r) == Some((c, r)),
{
    reveal_strlit("null");
    reveal_strlit("{\"login\":{\"name\":");
    reveal_strlit("}}");
    reveal_strlit("{\"join_room\":{}}");
    reveal_strlit("{\"join_user\":{}}");
    reveal_strlit("{\"create_room\":{}}");
    reveal_strlit("{\"leave_room\":{}}");
    reveal_strlit("{\"leave_user\":{}}");
    reveal_strlit("{\"send_message\":");
    reveal_strlit("}");
    let s = opt_command_json(c) + r;
    let login = "{\"login\":{\"name\":"@;
    let send = "{\"send_message\":"@;
    match c {
        None => {
            lemma_strip("null"@, r);
        },
        Some(cmd) => {
            lemma_strip_differs("null"@, s, 0);
            match cmd {
                Command::Login(n) => {
                    lemma_parse_with_string(login, "}}"@, n, r);
                },
                _ => {
                    assert(s[2] == opt_command_json(c)[2]);
                    assert(s[3] == opt_command_json(c)[3]);
                    if cmd is LeaveRoom || cmd is LeaveUser {
                        lemma_strip_differs(login, s, 3);
                    } else {
                        lemma_strip_differs(login, s, 2);
                    }
                    match cmd {
                        Command::JoinRoom => {
                            lemma_strip("{\"join_room\":{}}"@, r);
                        },
                        Command::JoinUser => {
                            assert(s[7] == opt_command_json(c)[7]);
                            lemma_strip_differs("{\"join_room\":{}}"@, s, 7);
                            lemma_strip("{\"join_user\":{}}"@, r);
                        },
                        Command::CreateRoom => {
                            lemma_strip_differs("{\"join_room\":{}}"@, s, 2);
                            lemma_strip_differs("{\"join_user\":{}}"@, s, 2);
                            lemma_strip("{\"create_room\":{}}"@, r);
                        },
                        Command::LeaveRoom => {
                            lemma_strip_differs("{\"join_room\":{}}"@, s, 2);
                            lemma_strip_differs("{\"join_user\":{}}"@, s, 2);
                            lemma_strip_differs("{\"create_room\":{}}"@, s, 2);
                            lemma_strip("{\"leave_room\":{}}"@, r);
                        },
                        Command::LeaveUser => {
                            assert(s[8] == opt_command_json(c)[8]);
                            lemma_strip_differs("{\"join_room\":{}}"@, s, 2);
                            lemma_strip_differs("{\"join_user\":{}}"@, s, 2);
                            lemma_strip_differs("{\"create_room\":{}}"@, s, 2);
                            lemma_strip_differs("{\"leave_room\":{}}"@, s, 8);
                            lemma_strip("{\"leave_user\":{}}"@, r);
                        },
                        Command::SendMessage(t) => {
                            lemma_strip_differs("{\"join_room\":{}}"@, s, 2);
                            lemma_strip_differs("{\"join_user\":{}}"@, s, 2);
                            lemma_strip_differs("{\"create_room\":{}}"@, s, 2);
                            lemma_strip_differs("{\"leave_room\":{}}"@, s, 2);
                            lemma_strip_differs("{\"leave_user\":{}}"@, s, 2);
                            lemma_parse_with_string(send, "}"@, t, r);
                        },
                        Command::Login(_) => {},
                    }
                },
            }
        },
    }
}

proof fn lemma_parse_command_sound(s: Seq<char>)
    requires
        parse_command(s) is Some,
    ensures
        s == opt_command_json(parse_command(s)->Some_0.0) + parse_command(s)->Some_0.1,
{
    let login = "{\"login\":{\"name\":"@;
    let send = "{\"send_message\":"@;
    if strip("null"@, s) is Some {
        lemma_strip_sound("null"@, s);
    } else if parse_with_string(login, "}}"@, s) is Some {
        lemma_parse_with_string_sound(login, "}}"@, s);
    } else if strip("{\"join_room\":{}}"@, s) is Some {
        lemma_strip_sound("{\"join_room\":{}}"@, s);
    } else if strip("{\"join_user\":{}}"@, s) is Some {
        lemma_strip_sound("{\"join_user\":{}}"@, s);
    } else if strip("{\"create_room\":{}}"@, s) is Some {
        lemma_strip_sound("{\"create_room\":{}}"@, s);
    } else if strip("{\"leave_room\":{}}"@, s) is Some {
        lemma_strip_sound("{\"leave_room\":{}}"@, s);
    } else if strip("{\"leave_user\":{}}"@, s) is Some {
        lemma_strip_sound("{\"leave_user\":{}}"@, s);
    } else {
        lemma_parse_with_string_sound(send, "}"@, s);
    }
}

proof fn lemma_parse_client(v: ClientEnvelope)
    ensures
        parse_client(client_json(v)) == Some(v),
{
    let s = client_json(v);
    let tail = opt_command_json(v.command) + "}"@;
    assert(s =~= "{\"topic\":"@ + (json_string(v.topic) + (",\"message\":"@ + tail)));
    lemma_strip("{\"topic\":"@, json_string(v.topic) + (",\"message\":"@ + tail));
    lemma_parse_string(v.topic, ",\"message\":"@ + tail);
    lemma_strip(",\"message\":"@, tail);
    lemma_parse_command(v.command, "}"@);
}

proof fn lemma_parse_client_sound(s: Seq<char>)
    requires
        parse_client(s) is Some,
    ensures
        client_json(parse_client(s)->Some_0) == s,
{
    let r1 = strip("{\"topic\":"@, s)->Some_0;
    lemma_strip_sound("{\"topic\":"@, s);
    lemma_parse_string_sound(r1);
    let (topic, r2) = parse_string(r1)->Some_0;
    lemma_strip_sound(",\"message\":"@, r2);
    let r3 = strip(",\"message\":"@, r2)->Some_0;
    lemma_parse_command_sound(r3);
    let (command, r4) = parse_command(r3)->Some_0;
    assert(s =~= client_json(ClientEnvelope { topic, command }));
}

/// Round trip of the client envelope text. `decode_client` gives, for a text
/// that decodes, an envelope whose encoding is that very text; and since no
/// two envelopes share a text (stated here), decoding the encoding of an
/// envelope gives that same envelope back, for every command.
pub proof fn law_client_round_trip(a: ClientEnvelope, b: ClientEnvelope)
    requires
        client_json(a) == client_json(b),
    ensures
        a == b,
{
    lemma_parse_client(a);
    lemma_parse_client(b);
}

/// Relies on `String::push`: appends one character at the end.
#[verifier::external_body]
fn push_char(s: &mut String, c: char)
    ensures
        final(s)@ == old(s)@.push(c),
{
    s.push(c)
}

/// The characters of `s`, in order.
fn chars_of(s: &str) -> (r: Vec<char>)
    ensures
        r@ == s@,
{
    let n = s.unicode_len();
    let mut r: Vec<char> = Vec::new();
    let mut i: usize = 0;
    while i < n
        invariant
            n == s@.len(),
            i <= n,
            r@ == s@.take(i as int),
        decreases n - i,
    {
        let c = s.get_char(i);
        r.push(c);
        i = i + 1;
        assert(r@ =~= s@.take(i as int));
    }
    assert(s@.take(n as int) =~= s@);
    r
}

fn digit_exec(d: u32) -> (c: char)
    requires
        d < 16,
    ensures
        c == digit_char(d),
{
    if d == 0 { '0' }
    else if d == 1 { '1' }
    else if d == 2 { '2' }
    else if d == 3 { '3' }
    else if d == 4 { '4' }
    else if d == 5 { '5' }
    else if d == 6 { '6' }
    else if d == 7 { '7' }
    else if d == 8 { '8' }
    else if d == 9 { '9' }
    else if d == 10 { 'a' }
    else if d == 11 { 'b' }
    else if d == 12 { 'c' }
    else if d == 13 { 'd' }
    else if d == 14 { 'e' }
    else { 'f' }
}

fn push_all(out: &mut String, cs: &[char])
    ensures
        final(out)@ == old(out)@ + cs@,
{
    let mut i: usize = 0;
    while i < cs.len()
        invariant
            i <= cs@.len(),
            out@ == old(out)@ + cs@.take(i as int),
        decreases cs.len() - i,
    {
        push_char(out, cs[i]);
        i = i + 1;
        assert(out@ =~= old(out)@ + cs@.take(i as int));
    }
    assert(cs@.take(cs@.len() as int) =~= cs@);
}

fn push_escaped_char(out: &mut String, c: char)
    ensures
        final(out)@ == old(out)@ + escape_char(c),
{
    if c == '"' {
        push_all(out, &['\\', '"']);
    } else if c == '\\' {
        push_all(out, &['\\', '\\']);
    } else if c == '\n' {
        push_all(out, &['\\', 'n']);
    } else if c == '\r' {
        push_all(out, &['\\', 'r']);
    } else if c == '\t' {
        push_all(out, &['\\', 't']);
    } else if c == '\x08' {
        push_all(out, &['\\', 'b']);
    } else if c == '\x0c' {
        push_all(out, &['\\', 'f']);
    } else if (c as u32) < 32 {
        let u = c as u32;
        let hi = digit_exec(u / 16);
        let lo = digit_exec(u % 16);
        push_all(out, &['\\', 'u', '0', '0', hi, lo]);
    } else {
        push_char(out, c);
    }
    assert(final(out)@ =~= old(out)@ + escape_char(c));
}

fn push_json_string(out: &mut String, s: &str)
    ensures
        final(out)@ == old(out)@ + json_string(s@),
{
    let cs = chars_of(s);
    push_char(out, '"');
    let ghost start = out@;
    let mut i: usize = 0;
    while i < cs.len()
        invariant
            i <= cs@.len(),
            cs@ == s@,
            out@ == start + escape(cs@.take(i as int)),
        decreases cs.len() - i,
    {
        push_escaped_char(out, cs[i]);
        assert(cs@.take(i + 1 as int).drop_last() =~= cs@.take(i as int));
        i = i + 1;
        assert(out@ =~= start + escape(cs@.take(i as int)));
    }
    push_char(out, '"');
    assert(cs@.take(cs@.len() as int) =~= cs@);
    assert(final(out)@ =~= old(out)@ + json_string(s@));
}

fn push_decimal(out: &mut String, n: u64)
    ensures
        final(out)@ == old(out)@ + decimal(n as nat),
    decreases n,
{
    if n < 10 {
        let d = digit_exec(n as u32);
        push_char(out, d);
    } else {
        push_decimal(out, n / 10);
        let d = digit_exec((n % 10) as u32);
        push_char(out, d);
    }
    assert(final(out)@ =~= old(out)@ + decimal(n as nat));
}

fn push_command(out: &mut String, m: &Option<Message>)
    ensures
        final(out)@ == old(out)@ + opt_command_json(match m {
            Some(c) => Some(c@),
            None => None,
        }),
{
    match m {
        None => out.append("null"),
        Some(Message::Login(l)) => {
            out.append("{\"login\":{\"name\":");
            push_json_string(out, l.name.as_str());
            out.append("}}");
        },
        Some(Message::JoinRoom(_)) => out.append("{\"join_room\":{}}"),
        Some(Message::JoinUser(_)) => out.append("{\"join_user\":{}}"),
        Some(Message::CreateRoom(_)) => out.append("{\"create_room\":{}}"),
        Some(Message::LeaveRoom(_)) => out.append("{\"leave_room\":{}}"),
        Some(Message::LeaveUser(_)) => out.append("{\"leave_user\":{}}"),
        Some(Message::SendMessage(t)) => {
            out.append("{\"send_message\":");
            push_json_string(out, t.as_str());
            out.append("}");
        },
    }
    assert(final(out)@ =~= old(out)@ + opt_command_json(match m {
        Some(c) => Some(c@),
        None => None,
    }));
}

/// The text of a client envelope.
pub fn encode_client(m: &ClientMessage) -> (r: String)
    ensures
        r@ == client_json(m@),
{
    let mut out = String::new();
    out.append("{\"topic\":");
    push_json_string(&mut out, m.topic.as_str());
    out.append(",\"message\":");
    push_command(&mut out, &m.message);
    out.append("}");
    assert(out@ =~= client_json(m@));
    out
}

/// The text of a server envelope.
pub fn encode_server(m: &ServerMessage) -> (r: String)
    ensures
        r@ == server_json(m@),
{
    let mut out = String::new();
    out.append("{\"topic\":");
    push_json_string(&mut out, m.topic.as_str());
    out.append(",\"sequence\":");
    push_decimal(&mut out, m.sequence);
    out.append(",\"message\":");
    match &m.message {
        Some(t) => push_json_string(&mut out, t.as_str()),
        None => out.append("null"),
    }
    out.append("}");
    assert(out@ =~= server_json(m@));
    out
}

/// `o` with `p` put in front of the characters that it read.
pub open spec fn prefixed(p: Seq<char>, o: Option<(Seq<char>, Seq<char>)>) -> Option<(Seq<char>, Seq<char>)> {
    match o {
        Some((u, r)) => Some((p + u, r)),
        None => None,
    }
}

fn hex_value_exec(c: char) -> (r: Option<u32>)
    ensures
        r == hex_value(c),
{
    if c == '0' { Some(0) }
    else if c == '1' { Some(1) }
    else if c == '2' { Some(2) }
    else if c == '3' { Some(3) }
    else if c == '4' { Some(4) }
    else if c == '5' { Some(5) }
    else if c == '6' { Some(6) }
    else if c == '7' { Some(7) }
    else if c == '8' { Some(8) }
    else if c == '9' { Some(9) }
    else if c == 'a' { Some(10) }
    else if c == 'b' { Some(11) }
    else if c == 'c' { Some(12) }
    else if c == 'd' { Some(13) }
    else if c == 'e' { Some(14) }
    else if c == 'f' { Some(15) }
    else { None }
}

/// Reads one encoded character at `i`.
fn token_at(cs: &Vec<char>, i: usize) -> (r: Option<(char, usize)>)
    requires
        i <= cs.len(),
    ensures
        match char_token(cs@.skip(i as int)) {
            Some((c, rest)) => r is Some && r->Some_0.0 == c && i < r->Some_0.1 <= cs.len()
                && cs@.skip(r->Some_0.1 as int) == rest,
            None => r is None,
        },
{
    let ghost s = cs@.skip(i as int);
    let n = cs.len();
    if i >= n {
        return None;
    }
    assert(s[0] == cs@[i as int]);
    let c = cs[i];
    if c == '"' {
        return None;
    }
    if c != '\\' {
        if (c as u32) < 32 {
            return None;
        }
        assert(s.drop_first() =~= cs@.skip(i + 1));
        return Some((c, i + 1));
    }
    if n - i < 2 {
        return None;
    }
    assert(s[1] == cs@[i + 1]);
    assert(s.skip(2) =~= cs@.skip(i + 2));
    let e = cs[i + 1];
    if e == '"' {
        Some(('"', i + 2))
    } else if e == '\\' {
        Some(('\\', i + 2))
    } else if e == 'n' {
        Some(('\n', i + 2))
    } else if e == 'r' {
        Some(('\r', i + 2))
    } else if e == 't' {
        Some(('\t', i + 2))
    } else if e == 'b' {
        Some(('\x08', i + 2))
    } else if e == 'f' {
        Some(('\x0c', i + 2))
    } else if e == 'u' && n - i >= 6 && cs[i + 2] == '0' && cs[i + 3] == '0' && (cs[i + 4] == '0'
        || cs[i + 4] == '1') {
        assert(s[2] == cs@[i + 2] && s[3] == cs@[i + 3] && s[4] == cs@[i + 4] && s[5] == cs@[i + 5]);
        assert(s.skip(6) =~= cs@.skip(i + 6));
        match (hex_value_exec(cs[i + 4]), hex_value_exec(cs[i + 5])) {
            (Some(h), Some(l)) => {
                let code = h * 16 + l;
                if code == 8 || code == 9 || code == 10 || code == 12 || code == 13 {
                    None
                } else {
                    let ch = (code as u8) as char;
                    assert(((code as u32) as char) == ch);
                    Some((ch, i + 6))
                }
            },
            _ => None,
        }
    } else {
        None
    }
}

/// Reads a string literal whose opening quote is at `i`.
fn string_at(cs: &Vec<char>, i: usize) -> (r: Option<(String, usize)>)
    requires
        i <= cs.len(),
    ensures
        match parse_string(cs@.skip(i as int)) {
            Some((t, rest)) => r is Some && r->Some_0.0@ == t && r->Some_0.1 <= cs.len()
                && cs@.skip(r->Some_0.1 as int) == rest,
            None => r is None,
        },
{
    if i >= cs.len() {
        return None;
    }
    assert(cs@.skip(i as int)[0] == cs@[i as int]);
    if cs[i] != '"' {
        return None;
    }
    assert(cs@.skip(i as int).drop_first() =~= cs@.skip(i + 1));
    let mut out = String::new();
    let mut j: usize = i + 1;
    proof {
        let o = unescape(cs@.skip(j as int));
        if o is Some {
            assert(Seq::<char>::empty() + o->Some_0.0 =~= o->Some_0.0);
        }
    }
    loop
        invariant
            i < j <= cs.len(),
            parse_string(cs@.skip(i as int)) == prefixed(out@, unescape(cs@.skip(j as int))),
        decreases cs.len() - j,
    {
        let ghost s = cs@.skip(j as int);
        if j < cs.len() && cs[j] == '"' {
            assert(s[0] == cs@[j as int]);
            assert(s.drop_first() =~= cs@.skip(j + 1));
            assert(out@ + Seq::<char>::empty() =~= out@);
            return Some((out, j + 1));
        }
        if j < cs.len() {
            assert(s[0] == cs@[j as int]);
        }
        match token_at(cs, j) {
            None => {
                return None;
            },
            Some((c, k)) => {
                let ghost before = out@;
                push_char(&mut out, c);
                j = k;
                proof {
                    let o = unescape(cs@.skip(j as int));
                    if o is Some {
                        assert(before + (seq![c] + o->Some_0.0) =~= out@ + o->Some_0.0);
                    }
                }
            },
        }
    }
}

/// Matches the characters of `lit` at `i`; gives the position after them.
fn lit_at(cs: &Vec<char>, i: usize, lit: &str) -> (r: Option<usize>)
    requires
        i <= cs.len(),
    ensures
        match strip(lit@, cs@.skip(i as int)) {
            Some(rest) => r is Some && r->Some_0 <= cs.len() && cs@.skip(r->Some_0 as int) == rest,
            None => r is None,
        },
{
    let ghost s = cs@.skip(i as int);
    let n = lit.unicode_len();
    if cs.len() - i < n {
        return None;
    }
    let mut k: usize = 0;
    while k < n
        invariant
            n == lit@.len(),
            i + n <= cs.len(),
            k <= n,
            s == cs@.skip(i as int),
            forall|m: int| 0 <= m < k ==> s[m] == lit@[m],
        decreases n - k,
    {
        assert(s[k as int] == cs@[i + k]);
        if cs[i + k] != lit.get_char(k) {
            proof {
                lemma_strip_differs(lit@, s, k as int);
            }
            return None;
        }
        k = k + 1;
    }
    assert(s.take(n as int) =~= lit@);
    assert(s.skip(n as int) =~= cs@.skip(i + n));
    Some(i + n)
}

/// Reads `lit`, a string literal, then `close`, from `i`.
fn with_string_at(cs: &Vec<char>, i: usize, lit: &str, close: &str) -> (r: Option<(String, usize)>)
    requires
        i <= cs.len(),
    ensures
        match parse_with_string(lit@, close@, cs@.skip(i as int)) {
            Some((t, rest)) => r is Some && r->Some_0.0@ == t && r->Some_0.1 <= cs.len()
                && cs@.skip(r->Some_0.1 as int) == rest,
            None => r is None,
        },
{
    let j = match lit_at(cs, i, lit) {
        Some(j) => j,
        None => return None,
    };
    let (t, k) = match string_at(cs, j) {
        Some(p) => p,
        None => return None,
    };
    match lit_at(cs, k, close) {
        Some(end) => Some((t, end)),
        None => None,
    }
}

/// The model of an optional command.
pub open spec fn command_view(m: Option<Message>) -> Option<Command> {
    match m {
        Some(c) => Some(c@),
        None => None,
    }
}

/// Reads an optional command at `i`.
fn command_at(cs: &Vec<char>, i: usize) -> (r: Option<(Option<Message>, usize)>)
    requires
        i <= cs.len(),
    ensures
        match parse_command(cs@.skip(i as int)) {
            Some((c, rest)) => r is Some && command_view(r->Some_0.0) == c && r->Some_0.1
                <= cs.len() && cs@.skip(r->Some_0.1 as int) == rest,
            None => r is None,
        },
{
    if let Some(j) = lit_at(cs, i, "null") {
        return Some((None, j));
    }
    if let Some((name, j)) = with_string_at(cs, i, "{\"login\":{\"name\":", "}}") {
        return Some((Some(Message::Login(Login { name })), j));
    }
    if let Some(j) = lit_at(cs, i, "{\"join_room\":{}}") {
        return Some((Some(Message::JoinRoom(JoinRoom {})), j));
    }
    if let Some(j) = lit_at(cs, i, "{\"join_user\":{}}") {
        return Some((Some(Message::JoinUser(JoinUser {})), j));
    }
    if let Some(j) = lit_at(cs, i, "{\"create_room\":{}}") {
        return Some((Some(Message::CreateRoom(CreateRoom {})), j));
    }
    if let Some(j) = lit_at(cs, i, "{\"leave_room\":{}}") {
        return Some((Some(Message::LeaveRoom(LeaveRoom {})), j));
    }
    if let Some(j) = lit_at(cs, i, "{\"leave_user\":{}}") {
        return Some((Some(Message::LeaveUser(LeaveUser {})), j));
    }
    if let Some((text, j)) = with_string_at(cs, i, "{\"send_message\":", "}") {
        return Some((Some(Message::SendMessage(text)), j));
    }
    None
}

/// Reads a client envelope from its text. Succeeds exactly on the texts that
/// `encode_client` yields, and then gives the envelope that was encoded.
pub fn decode_client(s: &str) -> (r: Result<ClientMessage, DecodeError>)
    ensures
        match r {
            Ok(m) => client_json(m@) == s@,
            Err(_) => forall|v: ClientEnvelope| client_json(v) != s@,
        },
{
    let cs = chars_of(s);
    let r = decode_chars(&cs);
    proof {
        if r is Ok {
            lemma_parse_client_sound(s@);
        } else {
            assert forall|v: ClientEnvelope| client_json(v) != s@ by {
                lemma_parse_client(v);
            }
        }
    }
    r
}

fn decode_chars(cs: &Vec<char>) -> (r: Result<ClientMessage, DecodeError>)
    ensures
        match parse_client(cs@) {
            Some(v) => r is Ok && r->Ok_0@ == v,
            None => r is Err,
        },
{
    assert(cs@.skip(0) =~= cs@);
    let i = match lit_at(cs, 0, "{\"topic\":") {
        Some(i) => i,
        None => return Err(DecodeError),
    };
    let (topic, j) = match string_at(cs, i) {
        Some(p) => p,
        None => return Err(DecodeError),
    };
    let k = match lit_at(cs, j, ",\"message\":") {
        Some(k) => k,
        None => return Err(DecodeError),
    };
    let (message, l) = match command_at(cs, k) {
        Some(p) => p,
        None => return Err(DecodeError),
    };
    let ghost r4 = cs@.skip(l as int);
    proof {
        reveal_strlit("}");
        if r4 == "}"@ {
            lemma_strip("}"@, Seq::<char>::empty());
            assert("}"@ + Seq::<char>::empty() =~= "}"@);
        }
    }
    match lit_at(cs, l, "}") {
        Some(end) => {
            if end == cs.len() {
                proof {
                    lemma_strip_sound("}"@, r4);
                    assert(r4 =~= "}"@ + cs@.skip(end as int));
                }
                Ok(ClientMessage { topic, message })
            } else {
                Err(DecodeError)
            }
        },
        None => Err(DecodeError),
    }
}

/// The value of a decimal digit.
pub open spec fn digit_value(c: char) -> Option<u32> {
    match hex_value(c) {
        Some(v) => if v < 10 { Some(v) } else { None },
        None => None,
    }
}

/// The number that a run of decimal digits writes.
pub open spec fn digits_value(d: Seq<char>) -> nat
    decreases d.len(),
{
    if d.len() == 0 {
        0
    } else {
        digits_value(d.drop_last()) * 10 + match digit_value(d.last()) {
            Some(v) => v as nat,
            None => 0,
        }
    }
}

/// How many decimal digits `s` starts with.
pub open spec fn digit_run(s: Seq<char>) -> nat
    decreases s.len(),
{
    if s.len() > 0 && digit_value(s[0]) is Some { 1 + digit_run(s.drop_first()) } else { 0 }
}

/// A number written without leading zeros at the front of `s`, and what follows it.
pub open spec fn parse_decimal(s: Seq<char>) -> Option<(nat, Seq<char>)> {
    let k = digit_run(s) as int;
    if k == 0 || (k > 1 && s[0] == '0') {
        None
    } else {
        Some((digits_value(s.take(k)), s.skip(k)))
    }
}

/// The server envelope that `s` is the text of, read front to back.
pub open spec fn parse_server(s: Seq<char>) -> Option<ServerEnvelope> {
    match strip("{\"topic\":"@, s) {
        Some(r1) => match parse_string(r1) {
            Some((topic, r2)) => match strip(",\"sequence\":"@, r2) {
                Some(r3) => match parse_decimal(r3) {
                    Some((sequence, r4)) => match strip(",\"message\":"@, r4) {
                        Some(r5) => if r5 == "null}"@ {
                            Some(ServerEnvelope { topic, sequence, message: None })
                        } else {
                            match parse_string(r5) {
                                Some((m, r6)) => if r6 == "}"@ {
                                    Some(ServerEnvelope { topic, sequence, message: Some(m) })
                                } else {
                                    None
                                },
                                None => None,
                            }
                        },
                        None => None,
                    },
                    None => None,
                },
                None => None,
            },
            None => None,
        },
        None => None,
    }
}

proof fn lemma_decimal_digits(n: nat)
    ensures
        decimal(n).len() >= 1,
        digit_run(decimal(n)) == decimal(n).len(),
        forall|i: int| 0 <= i < decimal(n).len() ==> #[trigger] digit_value(decimal(n)[i]) is Some,
        decimal(n).len() > 1 ==> decimal(n)[0] != '0',
        n >= 10 <==> decimal(n).len() > 1,
        digits_value(decimal(n)) == n,
    decreases n,
{
    if n >= 10 {
        lemma_decimal_digits(n / 10);
        assert(n / 10 >= 1);
        if n / 10 < 10 {
            assert(decimal(n / 10) == seq![digit_char((n / 10) as u32)]);
            assert(digit_char((n / 10) as u32) != '0');
        }
        let d = decimal(n / 10);
        let c = digit_char((n % 10) as u32);
        assert(decimal(n) == d + seq![c]);
        assert((d + seq![c]).drop_last() =~= d);
        assert(decimal(n)[0] == d[0]);
        assert(digit_value(c) == Some((n % 10) as u32));
        assert(n == (n / 10) * 10 + n % 10) by (nonlinear_arith);
        lemma_digit_run_append(d, c);
        assert forall|i: int| 0 <= i < decimal(n).len() implies #[trigger] digit_value(decimal(n)[i]) is Some by {
            if i < d.len() {
                assert(decimal(n)[i] == d[i]);
            }
        }
    } else {
        assert(digit_value(digit_char(n as u32)) == Some(n as u32));
        let d = seq![digit_char(n as u32)];
        assert(decimal(n) == d);
        assert(d.drop_first().len() == 0);
        assert(digit_run(d.drop_first()) == 0);
        assert(d.drop_last() =~= Seq::<char>::empty());
        assert(digits_value(d.drop_last()) == 0);
    }
}

proof fn lemma_digit_run_append(d: Seq<char>, c: char)
    requires
        digit_run(d) == d.len(),
        digit_value(c) is Some,
    ensures
        digit_run(d + seq![c]) == d.len() + 1,
    decreases d.len(),
{
    let s = d + seq![c];
    if d.len() == 0 {
        assert(s =~= seq![c]);
        assert(s.drop_first().len() == 0);
        assert(digit_run(s.drop_first()) == 0);
    } else {
        assert(s[0] == d[0]);
        assert(digit_value(d[0]) is Some);
        assert(digit_run(d.drop_first()) == d.len() - 1);
        assert(s.drop_first() =~= d.drop_first() + seq![c]);
        lemma_digit_run_append(d.drop_first(), c);
    }
}

proof fn lemma_digit_run_stops(d: Seq<char>, r: Seq<char>)
    requires
        digit_run(d) == d.len(),
        r.len() == 0 || digit_value(r[0]) is None,
    ensures
        digit_run(d + r) == d.len(),
    decreases d.len(),
{
    let s = d + r;
    if d.len() == 0 {
        assert(s =~= r);
    } else {
        assert(s[0] == d[0]);
        assert(s.drop_first() =~= d.drop_first() + r);
        lemma_digit_run_stops(d.drop_first(), r);
    }
}

proof fn lemma_digit_run_bound(s: Seq<char>)
    ensures
        digit_run(s) <= s.len(),
    decreases s.len(),
{
    if s.len() > 0 {
        lemma_digit_run_bound(s.drop_first());
    }
}

proof fn lemma_digit_run_prefix(s: Seq<char>, i: int)
    requires
        0 <= i < digit_run(s),
    ensures
        i < s.len(),
        digit_value(s[i]) is Some,
    decreases i,
{
    if i > 0 {
        lemma_digit_run_prefix(s.drop_first(), i - 1);
    }
}

proof fn lemma_digits_value_positive(d: Seq<char>)
    requires
        d.len() >= 1,
        forall|i: int| 0 <= i < d.len() ==> #[trigger] digit_value(d[i]) is Some,
        d[0] != '0',
    ensures
        digits_value(d) >= 1,
    decreases d.len(),
{
    if d.len() > 1 {
        let p = d.drop_last();
        assert(p[0] == d[0]);
        assert forall|i: int| 0 <= i < p.len() implies #[trigger] digit_value(p[i]) is Some by {
            assert(p[i] == d[i]);
        }
        lemma_digits_value_positive(p);
    } else {
        assert(d.drop_last().len() == 0);
        assert(digit_value(d[0]) is Some);
    }
}

proof fn lemma_decimal_of_digits(d: Seq<char>)
    requires
        d.len() >= 1,
        forall|i: int| 0 <= i < d.len() ==> #[trigger] digit_value(d[i]) is Some,
        d.len() > 1 ==> d[0] != '0',
    ensures
        decimal(digits_value(d)) == d,
    decreases d.len(),
{
    let p = d.drop_last();
    let c = d.last();
    let v = digit_value(c)->Some_0;
    assert(digit_value(d[d.len() - 1]) is Some);
    assert(digit_char(v) == c);
    if d.len() == 1 {
        assert(p.len() == 0);
        assert(digits_value(p) == 0);
        assert(digits_value(d) == v as nat);
        assert(decimal(v as nat) =~= d);
    } else {
        assert(p[0] == d[0]);
        assert forall|i: int| 0 <= i < p.len() implies #[trigger] digit_value(p[i]) is Some by {
            assert(p[i] == d[i]);
        }
        lemma_decimal_of_digits(p);
        lemma_digits_value_positive(p);
        let n = digits_value(d);
        let q = digits_value(p);
        assert(n == q * 10 + v);
        assert(n / 10 == q && n % 10 == v as nat) by (nonlinear_arith)
            requires
                n == q * 10 + v,
                v < 10,
        ;
        assert(n >= 10);
        assert(d =~= p + seq![c]);
    }
}

proof fn lemma_parse_decimal(n: nat, r: Seq<char>)
    requires
        r.len() == 0 || digit_value(r[0]) is None,
    ensures
        parse_decimal(decimal(n) + r) == Some((n, r)),
{
    lemma_decimal_digits(n);
    let d = decimal(n);
    lemma_digit_run_stops(d, r);
    assert((d + r).take(d.len() as int) =~= d);
    assert((d + r).skip(d.len() as int) =~= r);
    assert((d + r)[0] == d[0]);
}

proof fn lemma_parse_decimal_sound(s: Seq<char>)
    requires
        parse_decimal(s) is Some,
    ensures
        s == decimal(parse_decimal(s)->Some_0.0) + parse_decimal(s)->Some_0.1,
{
    let k = digit_run(s) as int;
    lemma_digit_run_bound(s);
    let d = s.take(k);
    assert forall|i: int| 0 <= i < d.len() implies #[trigger] digit_value(d[i]) is Some by {
        lemma_digit_run_prefix(s, i);
    }
    if k > 1 {
        assert(d[0] == s[0]);
    }
    lemma_decimal_of_digits(d);
    assert(s =~= d + s.skip(k));
}

proof fn lemma_digit_run_all(d: Seq<char>)
    requires
        forall|i: int| 0 <= i < d.len() ==> #[trigger] digit_value(d[i]) is Some,
    ensures
        digit_run(d) == d.len(),
    decreases d.len(),
{
    if d.len() > 0 {
        assert(digit_value(d[0]) is Some);
        let t = d.drop_first();
        assert forall|i: int| 0 <= i < t.len() implies #[trigger] digit_value(t[i]) is Some by {
            assert(t[i] == d[i + 1]);
        }
        lemma_digit_run_all(t);
    }
}

proof fn lemma_digits_value_grows(d: Seq<char>, j: int)
    requires
        0 <= j <= d.len(),
    ensures
        digits_value(d.take(j)) <= digits_value(d),
    decreases d.len(),
{
    if j < d.len() {
        lemma_digits_value_grows(d.drop_last(), j);
        assert(d.drop_last().take(j) =~= d.take(j));
    } else {
        assert(d.take(j) =~= d);
    }
}

proof fn lemma_parse_server(v: ServerEnvelope)
    ensures
        parse_server(server_json(v)) == Some(v),
{
    reveal_strlit(",\"message\":");
    reveal_strlit("null}");
    reveal_strlit("null");
    reveal_strlit("}");
    let m = match v.message {
        Some(m) => json_string(m),
        None => "null"@,
    };
    let tail = m + "}"@;
    let r4 = ",\"message\":"@ + tail;
    let r3 = decimal(v.sequence) + r4;
    let r2 = ",\"sequence\":"@ + r3;
    let r1 = json_string(v.topic) + r2;
    assert(server_json(v) =~= "{\"topic\":"@ + r1);
    lemma_strip("{\"topic\":"@, r1);
    lemma_parse_string(v.topic, r2);
    lemma_strip(",\"sequence\":"@, r3);
    assert(r4[0] == ',');
    lemma_parse_decimal(v.sequence, r4);
    lemma_strip(",\"message\":"@, tail);
    match v.message {
        Some(t) => {
            assert(tail[0] == '"');
            assert(tail != "null}"@);
            lemma_parse_string(t, "}"@);
        },
        None => {
            assert(tail =~= "null}"@);
        },
    }
}

proof fn lemma_parse_server_sound(s: Seq<char>)
    requires
        parse_server(s) is Some,
    ensures
        server_json(parse_server(s)->Some_0) == s,
{
    reveal_strlit("null}");
    reveal_strlit("null");
    reveal_strlit("}");
    let r1 = strip("{\"topic\":"@, s)->Some_0;
    lemma_strip_sound("{\"topic\":"@, s);
    lemma_parse_string_sound(r1);
    let (topic, r2) = parse_string(r1)->Some_0;
    lemma_strip_sound(",\"sequence\":"@, r2);
    let r3 = strip(",\"sequence\":"@, r2)->Some_0;
    lemma_parse_decimal_sound(r3);
    let (sequence, r4) = parse_decimal(r3)->Some_0;
    lemma_strip_sound(",\"message\":"@, r4);
    let r5 = strip(",\"message\":"@, r4)->Some_0;
    if r5 == "null}"@ {
        assert(r5 =~= "null"@ + "}"@);
    } else {
        lemma_parse_string_sound(r5);
    }
    assert(s =~= server_json(parse_server(s)->Some_0));
}

/// Reads a number without leading zeros at `i`; `None` also when it does not fit in a `u64`.
fn decimal_at(cs: &Vec<char>, i: usize) -> (r: Option<(u64, usize)>)
    requires
        i <= cs.len(),
    ensures
        match parse_decimal(cs@.skip(i as int)) {
            Some((n, rest)) => if n <= u64::MAX {
                r is Some && r->Some_0.0 == n && r->Some_0.1 <= cs.len() && cs@.skip(
                    r->Some_0.1 as int,
                ) == rest
            } else {
                r is None
            },
            None => r is None,
        },
{
    let ghost s = cs@.skip(i as int);
    let mut j: usize = i;
    let mut acc: u64 = 0;
    loop
        invariant
            i <= j <= cs.len(),
            s == cs@.skip(i as int),
            forall|m: int| 0 <= m < j - i ==> #[trigger] digit_value(s[m]) is Some,
            acc as nat == digits_value(s.take(j - i)),
        ensures
            i <= j <= cs.len(),
            s == cs@.skip(i as int),
            forall|m: int| 0 <= m < j - i ==> #[trigger] digit_value(s[m]) is Some,
            acc as nat == digits_value(s.take(j - i)),
            j < cs.len() ==> digit_value(cs@[j as int]) is None,
        decreases cs.len() - j,
    {
        let d = if j < cs.len() {
            assert(s[j - i] == cs@[j as int]);
            match hex_value_exec(cs[j]) {
                Some(v) => if v < 10 { Some(v) } else { None },
                None => None,
            }
        } else {
            None
        };
        match d {
            None => {
                break;
            },
            Some(v) => {
                let ghost t = s.take(j + 1 - i);
                assert(t.drop_last() =~= s.take(j - i));
                assert(digits_value(t) == acc * 10 + v);
                if acc > (u64::MAX - v as u64) / 10 {
                    proof {
                        assert(acc * 10 + v > u64::MAX) by (nonlinear_arith)
                            requires
                                acc > (u64::MAX - v as u64) / 10,
                                v < 10,
                        ;
                        let k = digit_run(s) as int;
                        if parse_decimal(s) is Some {
                            assert forall|m: int| 0 <= m < j + 1 - i implies #[trigger] digit_value(t[m]) is Some by {
                                assert(t[m] == s[m]);
                            }
                            lemma_digit_run_all(t);
                            lemma_digit_run_bound(s);
                            lemma_digits_run_at_least(s, j + 1 - i);
                            lemma_digits_value_grows(s.take(k), j + 1 - i);
                            assert(s.take(k).take(j + 1 - i) =~= t);
                        }
                    }
                    return None;
                }
                assert(acc * 10 + v <= u64::MAX) by (nonlinear_arith)
                    requires
                        acc <= (u64::MAX - v as u64) / 10,
                        v < 10,
                ;
                acc = acc * 10 + v as u64;
                j = j + 1;
            },
        }
    }
    proof {
        let k = j - i;
        let d = s.take(k);
        assert forall|m: int| 0 <= m < d.len() implies #[trigger] digit_value(d[m]) is Some by {
            assert(d[m] == s[m]);
        }
        lemma_digit_run_all(d);
        assert(s =~= d + s.skip(k));
        if k < s.len() {
            assert(s.skip(k)[0] == s[k]);
            assert(s[k] == cs@[j as int]);
        }
        lemma_digit_run_stops(d, s.skip(k));
        assert(s.skip(k) =~= cs@.skip(j as int));
    }
    if j == i || (j - i > 1 && cs[i] == '0') {
        proof {
            if j > i {
                assert(s[0] == cs@[i as int]);
            }
        }
        return None;
    }
    proof {
        assert(s[0] == cs@[i as int]);
    }
    Some((acc, j))
}

proof fn lemma_digits_run_at_least(s: Seq<char>, k: int)
    requires
        0 <= k <= s.len(),
        forall|m: int| 0 <= m < k ==> #[trigger] digit_value(s[m]) is Some,
    ensures
        digit_run(s) >= k,
    decreases k,
{
    if k > 0 {
        let t = s.drop_first();
        assert(digit_value(s[0]) is Some);
        assert forall|m: int| 0 <= m < k - 1 implies #[trigger] digit_value(t[m]) is Some by {
            assert(t[m] == s[m + 1]);
        }
        lemma_digits_run_at_least(t, k - 1);
    }
}

/// Reads a server envelope from its text. Succeeds exactly on the texts that
/// `encode_server` yields, and then gives the envelope that was encoded.
pub fn decode_server(s: &str) -> (r: Result<ServerMessage, DecodeError>)
    ensures
        match r {
            Ok(m) => server_json(m@) == s@,
            Err(_) => forall|v: ServerEnvelope| v.sequence <= u64::MAX ==> server_json(v) != s@,
        },
{
    let cs = chars_of(s);
    let r = decode_server_chars(&cs);
    proof {
        if r is Ok {
            lemma_parse_server_sound(s@);
        } else {
            assert forall|v: ServerEnvelope| v.sequence <= u64::MAX implies server_json(v) != s@ by {
                lemma_parse_server(v);
            }
        }
    }
    r
}

fn decode_server_chars(cs: &Vec<char>) -> (r: Result<ServerMessage, DecodeError>)
    ensures
        match parse_server(cs@) {
            Some(v) => if v.sequence <= u64::MAX {
                r is Ok && r->Ok_0@ == v
            } else {
                r is Err
            },
            None => r is Err,
        },
{
    assert(cs@.skip(0) =~= cs@);
    let i = match lit_at(cs, 0, "{\"topic\":") {
        Some(i) => i,
        None => return Err(DecodeError),
    };
    let (topic, j) = match string_at(cs, i) {
        Some(p) => p,
        None => return Err(DecodeError),
    };
    let k = match lit_at(cs, j, ",\"sequence\":") {
        Some(k) => k,
        None => return Err(DecodeError),
    };
    let (sequence, l) = match decimal_at(cs, k) {
        Some(p) => p,
        None => return Err(DecodeError),
    };
    let p = match lit_at(cs, l, ",\"message\":") {
        Some(p) => p,
        None => return Err(DecodeError),
    };
    let ghost r5 = cs@.skip(p as int);
    proof {
        reveal_strlit("null}");
        reveal_strlit("}");
        if r5 == "null}"@ {
            lemma_strip("null}"@, Seq::<char>::empty());
            assert("null}"@ + Seq::<char>::empty() =~= "null}"@);
        }
    }
    if let Some(end) = lit_at(cs, p, "null}") {
        if end == cs.len() {
            proof {
                lemma_strip_sound("null}"@, r5);
                assert(r5 =~= "null}"@ + cs@.skip(end as int));
            }
            return Ok(ServerMessage { topic, sequence, message: None });
        }
    }
    proof {
        if r5 == "null}"@ {
            assert(cs@.skip(cs.len() as int) =~= Seq::<char>::empty());
        }
    }
    let (text, q) = match string_at(cs, p) {
        Some(p) => p,
        None => return Err(DecodeError),
    };
    let ghost r6 = cs@.skip(q as int);
    proof {
        if r6 == "}"@ {
            lemma_strip("}"@, Seq::<char>::empty());
            assert("}"@ + Seq::<char>::empty() =~= "}"@);
        }
    }
    match lit_at(cs, q, "}") {
        Some(end) => {
            if end == cs.len() {
                proof {
                    lemma_strip_sound("}"@, r6);
                    assert(r6 =~= "}"@ + cs@.skip(end as int));
                }
                Ok(ServerMessage { topic, sequence, message: Some(text) })
            } else {
                proof {
                    if r6 == "}"@ {
                        assert(cs@.skip(cs.len() as int) =~= Seq::<char>::empty());
                    }
                }
                Err(DecodeError)
            }
        },
        None => Err(DecodeError),
    }
}

/// Round trip of the server envelope text: no two envelopes share a text, so
/// `decode_server` gives back the very envelope whose encoding it reads.
pub proof fn law_server_round_trip(a: ServerEnvelope, b: ServerEnvelope)
    requires
        server_json(a) == server_json(b),
    ensures
        a == b,
{
    lemma_parse_server(a);
    lemma_parse_server(b);
}

} // verus!
