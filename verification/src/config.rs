//! Client configuration, and its JSON form.
//!
//! The configuration file is a JSON object holding the two string
//! members `server_address` and `auth_token`, in any order, each once,
//! among any other members, whose values are skipped.  What the loader
//! accepts is specified by a spec-level parser, the executable parser
//! is proved to agree with it, and rendering a configuration parses
//! back to the same pair.

use vstd::prelude::*;

use crate::text::{escape_char, json_escape, append_json_escaped};

verus! {

/// A configuration that could not be loaded.
#[derive(Clone, Copy, Debug, PartialEq, Eq, Structural)]
pub enum ConfigError {
    /// The configuration file could not be read.
    MissingFile,
    /// The text is not a configuration object.
    Malformed,
}

/// Connection settings for the streaming client.
#[derive(Clone, Debug)]
pub struct ClientConfig {
    /// Address of the server, as a URI.
    pub server_addr: String,
    /// Bearer token sent with every call; may be empty.
    pub token: String,
    /// Per-call timeout, in seconds.
    pub timeout_secs: u64,
}

impl Default for ClientConfig {
    /// The local development default: localhost, no token, half a
    /// minute of patience.
    fn default() -> (c: Self)
        ensures
            c.server_addr@ == "http://localhost:50051"@,
            c.token@ == Seq::<char>::empty(),
            c.timeout_secs == 30,
    {
        ClientConfig {
            server_addr: String::from_str("http://localhost:50051"),
            token: String::new(),
            timeout_secs: 30,
        }
    }
}

/// Transport knobs the client sets when it opens its channel.
#[derive(Clone, Copy, Debug, PartialEq, Eq, Structural)]
pub struct ConnectionSettings {
    /// Per-call timeout, in seconds.
    pub request_timeout_secs: u64,
    /// Interval of TCP keep-alive probes, in seconds.
    pub tcp_keepalive_secs: u64,
    /// Interval of HTTP/2 keep-alive pings, in seconds.
    pub http2_keepalive_interval_secs: u64,
    /// How long an unanswered keep-alive ping may hang, in seconds.
    pub keepalive_timeout_secs: u64,
}

/// The transport settings used for a configuration: keep-alive probes
/// every half minute on both layers, a ten second ping deadline, and
/// the configured per-call timeout.
pub fn connection_settings(config: &ClientConfig) -> (s: ConnectionSettings)
    ensures
        s.request_timeout_secs == config.timeout_secs,
        s.tcp_keepalive_secs == 30,
        s.http2_keepalive_interval_secs == 30,
        s.keepalive_timeout_secs == 10,
{
    ConnectionSettings {
        request_timeout_secs: config.timeout_secs,
        tcp_keepalive_secs: 30,
        http2_keepalive_interval_secs: 30,
        keepalive_timeout_secs: 10,
    }
}

// --- the JSON form -------------------------------------------------------

/// JSON whitespace.
pub open spec fn ws_char(c: char) -> bool {
    c == ' ' || c == '\t' || c == '\n' || c == '\r'
}

/// How many whitespace characters open the string.
pub open spec fn ws_len(s: Seq<char>) -> nat
    decreases s.len(),
{
    if s.len() == 0 || !ws_char(s[0]) {
        0
    } else {
        (1 + ws_len(s.skip(1))) as nat
    }
}

/// A hexadecimal digit.
pub open spec fn is_hex_digit(c: char) -> bool {
    ('0' <= c && c <= '9') || ('a' <= c && c <= 'f') || ('A' <= c && c <= 'F')
}

/// The value of a hexadecimal digit.
pub open spec fn hex_val(c: char) -> u32 {
    if '0' <= c && c <= '9' {
        (c as u32 - 48) as u32
    } else if 'a' <= c && c <= 'f' {
        (c as u32 - 87) as u32
    } else {
        (c as u32 - 55) as u32
    }
}

/// The value of the four hexadecimal digits at `p`, if that is what
/// stands there.
pub open spec fn hex4_at(s: Seq<char>, p: int) -> Option<u32> {
    if 0 <= p && p + 4 <= s.len() && is_hex_digit(s[p]) && is_hex_digit(s[p + 1]) && is_hex_digit(
        s[p + 2],
    ) && is_hex_digit(s[p + 3]) {
        Some(
            (hex_val(s[p]) * 0x1000 + hex_val(s[p + 1]) * 0x100 + hex_val(s[p + 2]) * 0x10
                + hex_val(s[p + 3])) as u32,
        )
    } else {
        None
    }
}

/// The code point of a character.
pub open spec fn code_of(c: char) -> int {
    c as int
}

/// The character with the given code point; meaningful only where one
/// exists.
pub open spec fn char_of(v: u32) -> char {
    choose|c: char| #[trigger] code_of(c) == v
}

/// A scalar value, neither a surrogate code nor past the last code
/// point: exactly the codes that name a character.
pub open spec fn scalar_ok(v: u32) -> bool {
    v < 0xD800 || (0xE000 <= v && v <= 0x10FFFF)
}

/// Relies on `char::from_u32`: it returns the character with the given
/// code, and nothing, exactly when the code is a surrogate or past the
/// last code point.
pub assume_specification[ char::from_u32 ](v: u32) -> (r: Option<char>)
    ensures
        r matches Some(c) ==> c as int == v,
        r is Some <==> scalar_ok(v),
;

/// The character an escape letter stands for, if the letter is one the
/// loader knows.
pub open spec fn unescape(c: char) -> Option<char> {
    if c == '"' {
        Some('"')
    } else if c == '\\' {
        Some('\\')
    } else if c == '/' {
        Some('/')
    } else if c == 'n' {
        Some('\n')
    } else if c == 't' {
        Some('\t')
    } else if c == 'r' {
        Some('\r')
    } else if c == 'b' {
        Some('\u{8}')
    } else if c == 'f' {
        Some('\u{c}')
    } else {
        None
    }
}

/// The body of a JSON string up to and including its closing quote:
/// the characters it denotes and how many characters it occupies.
pub open spec fn take_string_body(s: Seq<char>) -> Option<(Seq<char>, int)>
    decreases s.len(),
{
    if s.len() == 0 {
        None
    } else if s[0] == '"' {
        Some((Seq::empty(), 1))
    } else if s[0] == '\\' {
        if s.len() < 2 {
            None
        } else if s[1] == 'u' {
            match hex4_at(s, 2) {
                Option::None => None,
                Option::Some(hi) => {
                    if 0xD800 <= hi && hi < 0xDC00 {
                        // a high surrogate must pair with a low one
                        if s.len() >= 12 && s[6] == '\\' && s[7] == 'u' {
                            match hex4_at(s, 8) {
                                Option::None => None,
                                Option::Some(lo) => {
                                    if 0xDC00 <= lo && lo < 0xE000 {
                                        let v = (0x10000 + (hi - 0xD800) * 0x400 + (lo
                                            - 0xDC00)) as u32;
                                        match take_string_body(s.skip(12)) {
                                            Option::None => None,
                                            Option::Some((t, n)) => Some(
                                                (seq![char_of(v)] + t, n + 12),
                                            ),
                                        }
                                    } else {
                                        None
                                    }
                                },
                            }
                        } else {
                            None
                        }
                    } else if 0xDC00 <= hi && hi < 0xE000 {
                        // a lone low surrogate names no character
                        None
                    } else {
                        match take_string_body(s.skip(6)) {
                            Option::None => None,
                            Option::Some((t, n)) => Some((seq![char_of(hi)] + t, n + 6)),
                        }
                    }
                },
            }
        } else {
            match unescape(s[1]) {
                Option::None => None,
                Option::Some(c) => match take_string_body(s.skip(2)) {
                    Option::None => None,
                    Option::Some((t, n)) => Some((seq![c] + t, n + 2)),
                },
            }
        }
    } else if (s[0] as u32) < 32 {
        None
    } else {
        match take_string_body(s.skip(1)) {
            Option::None => None,
            Option::Some((t, n)) => Some((seq![s[0]] + t, n + 1)),
        }
    }
}

/// How many decimal digits open the string.
pub open spec fn digit_run(s: Seq<char>) -> nat
    decreases s.len(),
{
    if s.len() == 0 || !('0' <= s[0] && s[0] <= '9') {
        0
    } else {
        (1 + digit_run(s.skip(1))) as nat
    }
}

/// The JSON number at the front of `s`: how many characters it
/// occupies, or nothing when none stands there.
pub open spec fn take_number(s: Seq<char>) -> Option<int> {
    let p0: int = if s.len() > 0 && s[0] == '-' {
        1
    } else {
        0
    };
    if p0 < s.len() && '0' <= s[p0] && s[p0] <= '9' {
        let ilen = digit_run(s.skip(p0)) as int;
        if s[p0] == '0' && ilen != 1 {
            None
        } else {
            let p1 = p0 + ilen;
            let p2: int = if p1 < s.len() && s[p1] == '.' {
                let flen = digit_run(s.skip(p1 + 1)) as int;
                if flen == 0 {
                    -1
                } else {
                    p1 + 1 + flen
                }
            } else {
                p1
            };
            if p2 < 0 {
                None
            } else {
                let p3: int = if p2 < s.len() && (s[p2] == 'e' || s[p2] == 'E') {
                    let q: int = if p2 + 1 < s.len() && (s[p2 + 1] == '+' || s[p2 + 1] == '-') {
                        p2 + 2
                    } else {
                        p2 + 1
                    };
                    let elen = digit_run(s.skip(q)) as int;
                    if elen == 0 {
                        -1
                    } else {
                        q + elen
                    }
                } else {
                    p2
                };
                if p3 < 0 {
                    None
                } else {
                    Some(p3)
                }
            }
        }
    } else {
        None
    }
}

/// The JSON value at the front of `s`: how many characters it
/// occupies.  `depth` bounds the nesting; the loader passes the text's
/// length, which no nesting can reach.
pub open spec fn take_value(s: Seq<char>, depth: nat) -> Option<int>
    decreases depth, s.len(), 0int,
{
    if s.len() == 0 {
        None
    } else if s[0] == '"' {
        match take_string_body(s.skip(1)) {
            Option::None => None,
            Option::Some((_t, n)) => Some(1 + n),
        }
    } else if s[0] == '{' {
        if depth == 0 {
            None
        } else {
            match take_object_rest(s.skip(1), (depth - 1) as nat) {
                Option::None => None,
                Option::Some(n) => Some(1 + n),
            }
        }
    } else if s[0] == '[' {
        if depth == 0 {
            None
        } else {
            match take_array_rest(s.skip(1), (depth - 1) as nat) {
                Option::None => None,
                Option::Some(n) => Some(1 + n),
            }
        }
    } else if s[0] == 't' {
        if s.len() >= 4 && s[1] == 'r' && s[2] == 'u' && s[3] == 'e' {
            Some(4)
        } else {
            None
        }
    } else if s[0] == 'f' {
        if s.len() >= 5 && s[1] == 'a' && s[2] == 'l' && s[3] == 's' && s[4] == 'e' {
            Some(5)
        } else {
            None
        }
    } else if s[0] == 'n' {
        if s.len() >= 4 && s[1] == 'u' && s[2] == 'l' && s[3] == 'l' {
            Some(4)
        } else {
            None
        }
    } else {
        take_number(s)
    }
}

/// The rest of a JSON object after its opening brace: members and
/// commas up to and including the closing brace.
pub open spec fn take_object_rest(s: Seq<char>, depth: nat) -> Option<int>
    decreases depth, s.len(), 1int,
{
    let w = ws_len(s) as int;
    if w < s.len() && s[w] == '}' {
        Some(w + 1)
    } else if w < s.len() && s[w] == '"' {
        match take_string_body(s.skip(w + 1)) {
            Option::None => None,
            Option::Some((_k, n1)) => {
                if n1 < 1 {
                    None
                } else {
                    let p1 = w + 1 + n1;
                    let p2 = p1 + ws_len(s.skip(p1));
                    if p2 < s.len() && s[p2] == ':' {
                        let p3 = p2 + 1 + ws_len(s.skip(p2 + 1));
                        if p3 > s.len() {
                            None
                        } else {
                        match take_value(s.skip(p3), depth) {
                            Option::None => None,
                            Option::Some(vn) => {
                                if vn < 1 {
                                    None
                                } else {
                                    let p4 = p3 + vn;
                                    let p5 = p4 + ws_len(s.skip(p4));
                                    if p5 < s.len() && s[p5] == ',' {
                                        match take_object_rest(s.skip(p5 + 1), depth) {
                                            Option::None => None,
                                            Option::Some(m) => Some(p5 + 1 + m),
                                        }
                                    } else if p5 < s.len() && s[p5] == '}' {
                                        Some(p5 + 1)
                                    } else {
                                        None
                                    }
                                }
                            },
                        }
                        }
                    } else {
                        None
                    }
                }
            },
        }
    } else {
        None
    }
}

/// The rest of a JSON array after its opening bracket: values and
/// commas up to and including the closing bracket.
pub open spec fn take_array_rest(s: Seq<char>, depth: nat) -> Option<int>
    decreases depth, s.len(), 1int,
{
    let w = ws_len(s) as int;
    if w < s.len() && s[w] == ']' {
        Some(w + 1)
    } else if w > s.len() {
        None
    } else {
        match take_value(s.skip(w), depth) {
            Option::None => None,
            Option::Some(vn) => {
                if vn < 1 {
                    None
                } else {
                    let p1 = w + vn;
                    let p2 = p1 + ws_len(s.skip(p1));
                    if p2 < s.len() && s[p2] == ',' {
                        match take_array_rest(s.skip(p2 + 1), depth) {
                            Option::None => None,
                            Option::Some(m) => Some(p2 + 1 + m),
                        }
                    } else if p2 < s.len() && s[p2] == ']' {
                        Some(p2 + 1)
                    } else {
                        None
                    }
                }
            },
        }
    }
}

/// The member value at the front of `s`: its text when it is a JSON
/// string, nothing but its extent when it is any other JSON value.
pub open spec fn take_member_value(s: Seq<char>, depth: nat) -> Option<(Option<Seq<char>>, int)> {
    if s.len() > 0 && s[0] == '"' {
        match take_string_body(s.skip(1)) {
            Option::None => None,
            Option::Some((v, n)) => Some((Some(v), 1 + n)),
        }
    } else {
        match take_value(s, depth) {
            Option::None => None,
            Option::Some(n) => Some((None, n)),
        }
    }
}

/// Bind one member to the configuration being collected: the two named
/// members must be strings and appear at most once; any other member
/// binds nothing.
pub open spec fn bind_member(
    key: Seq<char>,
    val: Option<Seq<char>>,
    sa: Option<Seq<char>>,
    at: Option<Seq<char>>,
) -> Option<(Option<Seq<char>>, Option<Seq<char>>)> {
    if key == "server_address"@ {
        match (sa, val) {
            (Option::None, Option::Some(v)) => Some((Some(v), at)),
            _ => None,
        }
    } else if key == "auth_token"@ {
        match (at, val) {
            (Option::None, Option::Some(v)) => Some((sa, Some(v))),
            _ => None,
        }
    } else {
        Some((sa, at))
    }
}

/// The configuration object's members after its opening brace, up to
/// and including the closing brace: the `server_address` and
/// `auth_token` values found so far, completed from the members that
/// follow.
pub open spec fn config_members(
    s: Seq<char>,
    sa: Option<Seq<char>>,
    at: Option<Seq<char>>,
    depth: nat,
) -> Option<(Option<Seq<char>>, Option<Seq<char>>, int)>
    decreases s.len(),
{
    let w = ws_len(s) as int;
    if w < s.len() && s[w] == '}' {
        Some((sa, at, w + 1))
    } else if w < s.len() && s[w] == '"' {
        match take_string_body(s.skip(w + 1)) {
            Option::None => None,
            Option::Some((key, n1)) => {
                if n1 < 1 {
                    None
                } else {
                    let p1 = w + 1 + n1;
                    let p2 = p1 + ws_len(s.skip(p1));
                    if p2 < s.len() && s[p2] == ':' {
                        let p3 = p2 + 1 + ws_len(s.skip(p2 + 1));
                        if p3 > s.len() {
                            None
                        } else {
                            match take_member_value(s.skip(p3), depth) {
                                Option::None => None,
                                Option::Some((val, vn)) => {
                                    if vn < 1 {
                                        None
                                    } else {
                                        match bind_member(key, val, sa, at) {
                                            Option::None => None,
                                            Option::Some((sa2, at2)) => {
                                                let p4 = p3 + vn;
                                                let p5 = p4 + ws_len(s.skip(p4));
                                                if p5 < s.len() && s[p5] == ',' {
                                                    match config_members(
                                                        s.skip(p5 + 1),
                                                        sa2,
                                                        at2,
                                                        depth,
                                                    ) {
                                                        Option::None => None,
                                                        Option::Some((sa4, at4, m)) => Some(
                                                            (sa4, at4, p5 + 1 + m),
                                                        ),
                                                    }
                                                } else if p5 < s.len() && s[p5] == '}' {
                                                    Some((sa2, at2, p5 + 1))
                                                } else {
                                                    None
                                                }
                                            },
                                        }
                                    }
                                },
                            }
                        }
                    } else {
                        None
                    }
                }
            },
        }
    } else {
        None
    }
}

/// The address and token a configuration text denotes: a JSON object
/// holding the two members as strings, each once, in any order, among
/// any other members.
pub open spec fn parse_config_spec(s: Seq<char>) -> Option<(Seq<char>, Seq<char>)> {
    let w0 = ws_len(s) as int;
    if w0 < s.len() && s[w0] == '{' {
        match config_members(s.skip(w0 + 1), None, None, s.len() as nat) {
            Option::None => None,
            Option::Some((sa, at, n)) => {
                let p = w0 + 1 + n;
                if p + ws_len(s.skip(p)) == s.len() {
                    match (sa, at) {
                        (Option::Some(a), Option::Some(t)) => Some((a, t)),
                        _ => None,
                    }
                } else {
                    None
                }
            },
        }
    } else {
        None
    }
}

/// The JSON rendering of an address and token pair.
pub open spec fn render_config_spec(addr: Seq<char>, tok: Seq<char>) -> Seq<char> {
    "{\"server_address\":\""@ + json_escape(addr) + "\",\"auth_token\":\""@ + json_escape(tok)
        + "\"}"@
}

/// Whitespace opening a string never outruns it.
proof fn lemma_ws_len(s: Seq<char>)
    ensures
        ws_len(s) <= s.len(),
    decreases s.len(),
{
    if s.len() > 0 && ws_char(s[0]) {
        lemma_ws_len(s.skip(1));
    }
}

/// A parsed string body occupies at least its closing quote and at
/// most the whole buffer.
proof fn lemma_take_string_body_len(s: Seq<char>)
    ensures
        match take_string_body(s) {
            Option::Some(bn) => 1 <= bn.1 <= s.len(),
            Option::None => true,
        },
    decreases s.len(),
{
    if s.len() > 0 {
        if s[0] == '\\' && s.len() >= 2 {
            if s[1] == 'u' {
                if hex4_at(s, 2) is Some {
                    lemma_take_string_body_len(s.skip(6));
                    if s.len() >= 12 {
                        lemma_take_string_body_len(s.skip(12));
                    }
                }
            } else {
                lemma_take_string_body_len(s.skip(2));
            }
        } else if s[0] != '"' {
            lemma_take_string_body_len(s.skip(1));
        }
    }
}

/// Move past the whitespace at `pos`.
fn skip_ws(s: &str, pos: usize) -> (r: usize)
    requires
        pos <= s@.len(),
    ensures
        r == pos + ws_len(s@.skip(pos as int)),
        pos <= r <= s@.len(),
{
    let len = s.unicode_len();
    let mut p = pos;
    proof {
        assert(s@.skip(pos as int).skip(0) =~= s@.skip(pos as int));
    }
    while p < len
        invariant
            pos <= p <= len,
            len == s@.len(),
            ws_len(s@.skip(pos as int)) == (p - pos) + ws_len(s@.skip(p as int)),
        decreases len - p,
    {
        let ghost tail = s@.skip(p as int);
        proof {
            assert(tail[0] == s@[p as int]);
            assert(tail.skip(1) =~= s@.skip(p as int + 1));
            lemma_ws_len(s@.skip(p as int));
        }
        let c = s.get_char(p);
        if !(c == ' ' || c == '\t' || c == '\n' || c == '\r') {
            return p;
        }
        p = p + 1;
    }
    proof {
        assert(s@.skip(len as int) =~= Seq::<char>::empty());
    }
    p
}

/// The value of a hexadecimal digit character, if it is one.
fn hex_digit(c: char) -> (r: Option<u32>)
    ensures
        r is Some <==> is_hex_digit(c),
        r matches Some(v) ==> v == hex_val(c),
{
    let u = c as u32;
    if 48 <= u && u <= 57 {
        Some(u - 48)
    } else if 97 <= u && u <= 102 {
        Some(u - 87)
    } else if 65 <= u && u <= 70 {
        Some(u - 55)
    } else {
        None
    }
}

/// Parse a string body at `pos`: the characters up to the closing
/// quote, unescaped.
fn parse_string_body(s: &str, pos: usize) -> (r: Option<(String, usize)>)
    requires
        pos <= s@.len(),
    ensures
        match take_string_body(s@.skip(pos as int)) {
            Option::Some(bn) => r matches Some(p) && p.0@ == bn.0 && p.1 == pos + bn.1 && pos
                + bn.1 <= s@.len(),
            Option::None => r is None,
        },
    decreases s@.len() - pos, 1int,
{
    let len = s.unicode_len();
    let ghost tail = s@.skip(pos as int);
    if pos == len {
        return None;
    }
    proof {
        assert(tail[0] == s@[pos as int]);
    }
    let c = s.get_char(pos);
    if c == '"' {
        let out = String::new();
        proof {
            assert(out@ =~= Seq::<char>::empty());
        }
        Some((out, pos + 1))
    } else if c == '\\' {
        if pos + 1 == len {
            proof {
                assert(tail.len() == 1);
            }
            return None;
        }
        proof {
            assert(tail[1] == s@[pos as int + 1]);
            assert(tail.skip(2) =~= s@.skip(pos as int + 2));
        }
        let e = s.get_char(pos + 1);
        if e == 'u' {
            return parse_unicode_escape(s, pos);
        }
        let unescaped: Option<char> = if e == '"' {
            Some('"')
        } else if e == '\\' {
            Some('\\')
        } else if e == '/' {
            Some('/')
        } else if e == 'n' {
            Some('\n')
        } else if e == 't' {
            Some('\t')
        } else if e == 'r' {
            Some('\r')
        } else if e == 'b' {
            Some('\u{8}')
        } else if e == 'f' {
            Some('\u{c}')
        } else {
            None
        };
        proof {
            assert(unescaped == unescape(tail[1]));
        }
        match unescaped {
            None => None,
            Some(u) => {
                match parse_string_body(s, pos + 2) {
                    None => None,
                    Some((t, q)) => {
                        let mut out = String::new();
                        crate::text::push_char(&mut out, u);
                        out.append(t.as_str());
                        proof {
                            assert(out@ =~= seq![u] + t@);
                        }
                        Some((out, q))
                    },
                }
            },
        }
    } else if (c as u32) < 32 {
        None
    } else {
        proof {
            assert(tail.skip(1) =~= s@.skip(pos as int + 1));
        }
        match parse_string_body(s, pos + 1) {
            None => None,
            Some((t, q)) => {
                let mut out = String::new();
                crate::text::push_char(&mut out, c);
                out.append(t.as_str());
                proof {
                    assert(out@ =~= seq![tail[0]] + t@);
                }
                Some((out, q))
            },
        }
    }
}

/// Parse the `\uXXXX` escape at `pos` (which holds `\u`) and the rest
/// of the string body behind it.
#[verifier::rlimit(100)]
#[verifier::spinoff_prover]
fn parse_unicode_escape(s: &str, pos: usize) -> (r: Option<(String, usize)>)
    requires
        pos + 2 <= s@.len(),
        s@.skip(pos as int)[0] == '\\',
        s@.skip(pos as int)[1] == 'u',
    ensures
        match take_string_body(s@.skip(pos as int)) {
            Option::Some(bn) => r matches Some(p) && p.0@ == bn.0 && p.1 == pos + bn.1 && pos
                + bn.1 <= s@.len(),
            Option::None => r is None,
        },
    decreases s@.len() - pos, 0int,
{
    let len = s.unicode_len();
    let ghost tail = s@.skip(pos as int);
    if len - pos < 6 {
        proof {
            assert(hex4_at(tail, 2) is None);
        }
        return None;
    }
    proof {
        assert(tail[2] == s@[pos + 2]);
        assert(tail[3] == s@[pos + 3]);
        assert(tail[4] == s@[pos + 4]);
        assert(tail[5] == s@[pos + 5]);
    }
    let h0 = hex_digit(s.get_char(pos + 2));
    let h1 = hex_digit(s.get_char(pos + 3));
    let h2 = hex_digit(s.get_char(pos + 4));
    let h3 = hex_digit(s.get_char(pos + 5));
    let hi: u32 = match (h0, h1, h2, h3) {
        (Some(a), Some(b), Some(c), Some(d)) => a * 0x1000 + b * 0x100 + c * 0x10 + d,
        _ => {
            proof {
                assert(hex4_at(tail, 2) is None);
            }
            return None;
        },
    };
    proof {
        assert(hex4_at(tail, 2) == Some(hi));
    }
    if 0xD800 <= hi && hi < 0xDC00 {
        // a high surrogate must pair with a low one
        if len - pos < 12 {
            return None;
        }
        proof {
            assert(tail[6] == s@[pos + 6]);
            assert(tail[7] == s@[pos + 7]);
        }
        if !(s.get_char(pos + 6) == '\\' && s.get_char(pos + 7) == 'u') {
            return None;
        }
        proof {
            assert(tail[8] == s@[pos + 8]);
            assert(tail[9] == s@[pos + 9]);
            assert(tail[10] == s@[pos + 10]);
            assert(tail[11] == s@[pos + 11]);
        }
        let g0 = hex_digit(s.get_char(pos + 8));
        let g1 = hex_digit(s.get_char(pos + 9));
        let g2 = hex_digit(s.get_char(pos + 10));
        let g3 = hex_digit(s.get_char(pos + 11));
        let lo: u32 = match (g0, g1, g2, g3) {
            (Some(a), Some(b), Some(c), Some(d)) => a * 0x1000 + b * 0x100 + c * 0x10 + d,
            _ => {
                proof {
                    assert(hex4_at(tail, 8) is None);
                }
                return None;
            },
        };
        proof {
            assert(hex4_at(tail, 8) == Some(lo));
        }
        if !(0xDC00 <= lo && lo < 0xE000) {
            return None;
        }
        let v: u32 = 0x10000 + (hi - 0xD800) * 0x400 + (lo - 0xDC00);
        let ch: char = match char::from_u32(v) {
            Some(ch) => ch,
            None => {
                proof {
                    assert(scalar_ok(v));
                    assert(false);
                }
                return None;
            },
        };
        proof {
            assert(tail.skip(12) =~= s@.skip(pos as int + 12));
        }
        match parse_string_body(s, pos + 12) {
            None => None,
            Some((t, q)) => {
                let mut out = String::new();
                crate::text::push_char(&mut out, ch);
                out.append(t.as_str());
                proof {
                    assert(code_of(ch) == v);
                    assert(char_of(v) == ch) by {
                        assert(exists|x: char| #[trigger] code_of(x) == v);
                        let w = char_of(v);
                        assert(code_of(w) == v);
                        assert(w as int == ch as int);
                        assert(w == ch);
                    };
                    assert(out@ =~= seq![char_of(v)] + t@);
                }
                Some((out, q))
            },
        }
    } else if 0xDC00 <= hi && hi < 0xE000 {
        // a lone low surrogate names no character
        None
    } else {
        let ch: char = match char::from_u32(hi) {
            Some(ch) => ch,
            None => {
                proof {
                    assert(scalar_ok(hi));
                    assert(false);
                }
                return None;
            },
        };
        proof {
            assert(tail.skip(6) =~= s@.skip(pos as int + 6));
        }
        match parse_string_body(s, pos + 6) {
            None => None,
            Some((t, q)) => {
                let mut out = String::new();
                crate::text::push_char(&mut out, ch);
                out.append(t.as_str());
                proof {
                    assert(code_of(ch) == hi);
                    assert(char_of(hi) == ch) by {
                        assert(exists|x: char| #[trigger] code_of(x) == hi);
                        let w = char_of(hi);
                        assert(code_of(w) == hi);
                        assert(w as int == ch as int);
                        assert(w == ch);
                    };
                    assert(out@ =~= seq![char_of(hi)] + t@);
                }
                Some((out, q))
            },
        }
    }
}

/// Move past the decimal digits at `pos`.
fn digit_run_at(s: &str, pos: usize) -> (r: usize)
    requires
        pos <= s@.len(),
    ensures
        r == pos + digit_run(s@.skip(pos as int)),
        pos <= r <= s@.len(),
{
    let len = s.unicode_len();
    let mut p = pos;
    proof {
        assert(s@.skip(pos as int).skip(0) =~= s@.skip(pos as int));
    }
    while p < len
        invariant
            pos <= p <= len,
            len == s@.len(),
            digit_run(s@.skip(pos as int)) == (p - pos) + digit_run(s@.skip(p as int)),
        decreases len - p,
    {
        let ghost tail = s@.skip(p as int);
        proof {
            assert(tail[0] == s@[p as int]);
            assert(tail.skip(1) =~= s@.skip(p as int + 1));
            lemma_digit_run_len(s@.skip(p as int));
        }
        let c = s.get_char(p);
        if !(c >= '0' && c <= '9') {
            return p;
        }
        p = p + 1;
    }
    proof {
        assert(s@.skip(len as int) =~= Seq::<char>::empty());
    }
    p
}

/// A digit run never outruns the string.
proof fn lemma_digit_run_len(s: Seq<char>)
    ensures
        digit_run(s) <= s.len(),
    decreases s.len(),
{
    if s.len() > 0 && '0' <= s[0] && s[0] <= '9' {
        lemma_digit_run_len(s.skip(1));
    }
}

/// Parse the JSON number at `pos`.
#[verifier::rlimit(100)]
#[verifier::spinoff_prover]
fn parse_number(s: &str, pos: usize) -> (r: Option<usize>)
    requires
        pos <= s@.len(),
    ensures
        match take_number(s@.skip(pos as int)) {
            Option::Some(n) => r matches Some(p) && p == pos + n && pos < p <= s@.len(),
            Option::None => r is None,
        },
{
    let len = s.unicode_len();
    let ghost tail = s@.skip(pos as int);
    proof {
        if pos < len {
            assert(tail[0] == s@[pos as int]);
        }
    }
    let p0 = if pos < len && s.get_char(pos) == '-' {
        pos + 1
    } else {
        pos
    };
    proof {
        assert(tail.skip(p0 - pos) =~= s@.skip(p0 as int));
    }
    if p0 == len {
        return None;
    }
    proof {
        assert(tail[p0 - pos] == s@[p0 as int]);
    }
    let c0 = s.get_char(p0);
    if !(c0 >= '0' && c0 <= '9') {
        return None;
    }
    let p1 = digit_run_at(s, p0);
    proof {
        lemma_digit_run_len(s@.skip(p0 as int));
        assert(digit_run(s@.skip(p0 as int)) >= 1);
        if p1 < len {
            assert(tail[p1 - pos] == s@[p1 as int]);
        }
    }
    if c0 == '0' && p1 != p0 + 1 {
        return None;
    }
    let p2 = if p1 < len && s.get_char(p1) == '.' {
        proof {
            assert(tail.skip(p1 + 1 - pos) =~= s@.skip(p1 as int + 1));
        }
        let f = digit_run_at(s, p1 + 1);
        if f == p1 + 1 {
            return None;
        }
        f
    } else {
        p1
    };
    proof {
        if p2 < len {
            assert(tail[p2 - pos] == s@[p2 as int]);
        }
    }
    let p3 = if p2 < len && (s.get_char(p2) == 'e' || s.get_char(p2) == 'E') {
        proof {
            if p2 + 1 < len {
                assert(tail[p2 + 1 - pos] == s@[p2 as int + 1]);
            }
        }
        let q = if p2 + 1 < len && (s.get_char(p2 + 1) == '+' || s.get_char(p2 + 1) == '-') {
            p2 + 2
        } else {
            p2 + 1
        };
        proof {
            assert(tail.skip(q - pos) =~= s@.skip(q as int));
        }
        let e = digit_run_at(s, q);
        if e == q {
            return None;
        }
        e
    } else {
        p2
    };
    Some(p3)
}

/// Parse the JSON value at `pos`.
#[verifier::rlimit(100)]
#[verifier::spinoff_prover]
fn parse_value(s: &str, pos: usize, depth: u64) -> (r: Option<usize>)
    requires
        pos <= s@.len(),
    ensures
        match take_value(s@.skip(pos as int), depth as nat) {
            Option::Some(n) => r matches Some(p) && p == pos + n && pos < p <= s@.len(),
            Option::None => r is None,
        },
    decreases depth, s@.len() - pos, 0int,
{
    let len = s.unicode_len();
    let ghost tail = s@.skip(pos as int);
    if pos == len {
        return None;
    }
    proof {
        assert(tail[0] == s@[pos as int]);
    }
    let c = s.get_char(pos);
    if c == '"' {
        proof {
            assert(tail.skip(1) =~= s@.skip(pos as int + 1));
        }
        match parse_string_body(s, pos + 1) {
            None => None,
            Some((_t, q)) => {
                proof {
                    lemma_take_string_body_len(s@.skip(pos as int + 1));
                }
                Some(q)
            },
        }
    } else if c == '{' {
        if depth == 0 {
            return None;
        }
        proof {
            assert(tail.skip(1) =~= s@.skip(pos as int + 1));
        }
        parse_object_rest(s, pos + 1, depth - 1)
    } else if c == '[' {
        if depth == 0 {
            return None;
        }
        proof {
            assert(tail.skip(1) =~= s@.skip(pos as int + 1));
        }
        parse_array_rest(s, pos + 1, depth - 1)
    } else if c == 't' {
        proof {
            if len - pos >= 4 {
                assert(tail[1] == s@[pos as int + 1]);
                assert(tail[2] == s@[pos as int + 2]);
                assert(tail[3] == s@[pos as int + 3]);
            }
        }
        if len - pos >= 4 && s.get_char(pos + 1) == 'r' && s.get_char(pos + 2) == 'u'
            && s.get_char(pos + 3) == 'e' {
            Some(pos + 4)
        } else {
            None
        }
    } else if c == 'f' {
        proof {
            if len - pos >= 5 {
                assert(tail[1] == s@[pos as int + 1]);
                assert(tail[2] == s@[pos as int + 2]);
                assert(tail[3] == s@[pos as int + 3]);
                assert(tail[4] == s@[pos as int + 4]);
            }
        }
        if len - pos >= 5 && s.get_char(pos + 1) == 'a' && s.get_char(pos + 2) == 'l'
            && s.get_char(pos + 3) == 's' && s.get_char(pos + 4) == 'e' {
            Some(pos + 5)
        } else {
            None
        }
    } else if c == 'n' {
        proof {
            if len - pos >= 4 {
                assert(tail[1] == s@[pos as int + 1]);
                assert(tail[2] == s@[pos as int + 2]);
                assert(tail[3] == s@[pos as int + 3]);
            }
        }
        if len - pos >= 4 && s.get_char(pos + 1) == 'u' && s.get_char(pos + 2) == 'l'
            && s.get_char(pos + 3) == 'l' {
            Some(pos + 4)
        } else {
            None
        }
    } else {
        parse_number(s, pos)
    }
}

/// Parse the rest of the JSON object at `pos`, past its opening brace.
#[verifier::rlimit(100)]
#[verifier::spinoff_prover]
fn parse_object_rest(s: &str, pos: usize, depth: u64) -> (r: Option<usize>)
    requires
        pos <= s@.len(),
    ensures
        match take_object_rest(s@.skip(pos as int), depth as nat) {
            Option::Some(n) => r matches Some(p) && p == pos + n && pos < p <= s@.len(),
            Option::None => r is None,
        },
    decreases depth, s@.len() - pos, 1int,
{
    let len = s.unicode_len();
    let ghost tail = s@.skip(pos as int);
    let w = skip_ws(s, pos);
    proof {
        if w < len {
            assert(tail[w - pos] == s@[w as int]);
        }
    }
    if w == len {
        return None;
    }
    let c = s.get_char(w);
    if c == '}' {
        return Some(w + 1);
    }
    if c != '"' {
        return None;
    }
    proof {
        assert(tail.skip(w + 1 - pos) =~= s@.skip(w as int + 1));
    }
    match parse_string_body(s, w + 1) {
        None => None,
        Some((_k, q1)) => {
            proof {
                lemma_take_string_body_len(s@.skip(w as int + 1));
                assert(tail.skip(q1 - pos) =~= s@.skip(q1 as int));
            }
            let q2 = skip_ws(s, q1);
            proof {
                if q2 < len {
                    assert(tail[q2 - pos] == s@[q2 as int]);
                }
            }
            if q2 == len {
                return None;
            }
            if s.get_char(q2) != ':' {
                return None;
            }
            proof {
                assert(tail.skip(q2 + 1 - pos) =~= s@.skip(q2 as int + 1));
            }
            let q3 = skip_ws(s, q2 + 1);
            proof {
                assert(tail.skip(q3 - pos) =~= s@.skip(q3 as int));
            }
            match parse_value(s, q3, depth) {
                None => None,
                Some(q4) => {
                    proof {
                        assert(tail.skip(q4 - pos) =~= s@.skip(q4 as int));
                    }
                    let q5 = skip_ws(s, q4);
                    proof {
                        if q5 < len {
                            assert(tail[q5 - pos] == s@[q5 as int]);
                        }
                    }
                    if q5 == len {
                        return None;
                    }
                    let c5 = s.get_char(q5);
                    if c5 == ',' {
                        proof {
                            assert(tail.skip(q5 + 1 - pos) =~= s@.skip(q5 as int + 1));
                        }
                        parse_object_rest(s, q5 + 1, depth)
                    } else if c5 == '}' {
                        Some(q5 + 1)
                    } else {
                        None
                    }
                },
            }
        },
    }
}

/// Parse the rest of the JSON array at `pos`, past its opening
/// bracket.
#[verifier::rlimit(100)]
#[verifier::spinoff_prover]
fn parse_array_rest(s: &str, pos: usize, depth: u64) -> (r: Option<usize>)
    requires
        pos <= s@.len(),
    ensures
        match take_array_rest(s@.skip(pos as int), depth as nat) {
            Option::Some(n) => r matches Some(p) && p == pos + n && pos < p <= s@.len(),
            Option::None => r is None,
        },
    decreases depth, s@.len() - pos, 1int,
{
    let len = s.unicode_len();
    let ghost tail = s@.skip(pos as int);
    let w = skip_ws(s, pos);
    proof {
        if w < len {
            assert(tail[w - pos] == s@[w as int]);
        }
        assert(tail.skip(w - pos) =~= s@.skip(w as int));
    }
    if w < len && s.get_char(w) == ']' {
        return Some(w + 1);
    }
    match parse_value(s, w, depth) {
        None => None,
        Some(q1) => {
            proof {
                assert(tail.skip(q1 - pos) =~= s@.skip(q1 as int));
            }
            let q2 = skip_ws(s, q1);
            proof {
                if q2 < len {
                    assert(tail[q2 - pos] == s@[q2 as int]);
                }
            }
            if q2 == len {
                return None;
            }
            let c2 = s.get_char(q2);
            if c2 == ',' {
                proof {
                    assert(tail.skip(q2 + 1 - pos) =~= s@.skip(q2 as int + 1));
                }
                parse_array_rest(s, q2 + 1, depth)
            } else if c2 == ']' {
                Some(q2 + 1)
            } else {
                None
            }
        },
    }
}

/// Mathematical value of an optional string.
pub open spec fn opt_string_view(o: Option<String>) -> Option<Seq<char>> {
    match o {
        Option::Some(x) => Some(x@),
        Option::None => None,
    }
}

/// Parse the member value at `pos`: its text when it is a JSON
/// string, only its extent otherwise.
fn parse_member_value(s: &str, pos: usize, depth: u64) -> (r: Option<(Option<String>, usize)>)
    requires
        pos <= s@.len(),
    ensures
        match take_member_value(s@.skip(pos as int), depth as nat) {
            Option::Some(t) => r matches Some(p) && opt_string_view(p.0) == t.0 && p.1 == pos
                + t.1 && pos < p.1 <= s@.len(),
            Option::None => r is None,
        },
{
    let len = s.unicode_len();
    let ghost tail = s@.skip(pos as int);
    proof {
        if pos < len {
            assert(tail[0] == s@[pos as int]);
        }
    }
    if pos < len && s.get_char(pos) == '"' {
        proof {
            assert(tail.skip(1) =~= s@.skip(pos as int + 1));
        }
        match parse_string_body(s, pos + 1) {
            None => None,
            Some((v, q)) => {
                proof {
                    lemma_take_string_body_len(s@.skip(pos as int + 1));
                }
                Some((Some(v), q))
            },
        }
    } else {
        match parse_value(s, pos, depth) {
            None => None,
            Some(q) => Some((None, q)),
        }
    }
}

/// Parse the configuration object's members at `pos`, collecting the
/// two named string members and skipping the rest.
#[verifier::rlimit(100)]
#[verifier::spinoff_prover]
fn parse_config_members(
    s: &str,
    pos: usize,
    sa: Option<String>,
    at: Option<String>,
    depth: u64,
) -> (r: Option<((Option<String>, Option<String>), usize)>)
    requires
        pos <= s@.len(),
    ensures
        match config_members(
            s@.skip(pos as int),
            opt_string_view(sa),
            opt_string_view(at),
            depth as nat,
        ) {
            Option::Some(t) => r matches Some(p) && opt_string_view(p.0.0) == t.0
                && opt_string_view(p.0.1) == t.1 && p.1 == pos + t.2 && pos + t.2 <= s@.len(),
            Option::None => r is None,
        },
    decreases s@.len() - pos,
{
    let ghost sav = opt_string_view(sa);
    let ghost atv = opt_string_view(at);
    let len = s.unicode_len();
    let ghost tail = s@.skip(pos as int);
    let w = skip_ws(s, pos);
    proof {
        if w < len {
            assert(tail[w - pos] == s@[w as int]);
        }
    }
    if w == len {
        return None;
    }
    let c = s.get_char(w);
    if c == '}' {
        return Some(((sa, at), w + 1));
    }
    if c != '"' {
        return None;
    }
    proof {
        assert(tail.skip(w + 1 - pos) =~= s@.skip(w as int + 1));
    }
    match parse_string_body(s, w + 1) {
        None => None,
        Some((key, q1)) => {
            proof {
                lemma_take_string_body_len(s@.skip(w as int + 1));
                assert(tail.skip(q1 - pos) =~= s@.skip(q1 as int));
            }
            let q2 = skip_ws(s, q1);
            proof {
                if q2 < len {
                    assert(tail[q2 - pos] == s@[q2 as int]);
                }
            }
            if q2 == len {
                return None;
            }
            if s.get_char(q2) != ':' {
                return None;
            }
            proof {
                assert(tail.skip(q2 + 1 - pos) =~= s@.skip(q2 as int + 1));
            }
            let q3 = skip_ws(s, q2 + 1);
            proof {
                assert(tail.skip(q3 - pos) =~= s@.skip(q3 as int));
            }
            match parse_member_value(s, q3, depth) {
                None => None,
                Some((strval, q4)) => {
                    let ghost valv = opt_string_view(strval);
                    let sa_key = String::from_str("server_address");
                    let at_key = String::from_str("auth_token");
                    let (sa2, at2): (Option<String>, Option<String>) = if key == sa_key {
                        if sa.is_some() {
                            proof {
                                assert(bind_member(key@, valv, sav, atv) is None);
                            }
                            return None;
                        }
                        match strval {
                            None => {
                                proof {
                                    assert(bind_member(key@, valv, sav, atv) is None);
                                }
                                return None;
                            },
                            Some(v) => (Some(v), at),
                        }
                    } else if key == at_key {
                        if at.is_some() {
                            proof {
                                assert(bind_member(key@, valv, sav, atv) is None);
                            }
                            return None;
                        }
                        match strval {
                            None => {
                                proof {
                                    assert(bind_member(key@, valv, sav, atv) is None);
                                }
                                return None;
                            },
                            Some(v) => (sa, Some(v)),
                        }
                    } else {
                        (sa, at)
                    };
                    proof {
                        assert(bind_member(key@, valv, sav, atv) == Some(
                            (opt_string_view(sa2), opt_string_view(at2)),
                        ));
                    }
                    let q5 = skip_ws(s, q4);
                    proof {
                        assert(tail.skip(q4 - pos) =~= s@.skip(q4 as int));
                        if q5 < len {
                            assert(tail[q5 - pos] == s@[q5 as int]);
                        }
                    }
                    if q5 == len {
                        return None;
                    }
                    let c5 = s.get_char(q5);
                    if c5 == ',' {
                        proof {
                            assert(tail.skip(q5 + 1 - pos) =~= s@.skip(q5 as int + 1));
                        }
                        match parse_config_members(s, q5 + 1, sa2, at2, depth) {
                            None => None,
                            Some((acc, q6)) => Some((acc, q6)),
                        }
                    } else if c5 == '}' {
                        Some(((sa2, at2), q5 + 1))
                    } else {
                        None
                    }
                },
            }
        },
    }
}

/// Load a configuration from its JSON text.  The timeout keeps its
/// default: the file carries only the address and the token.
pub fn parse_client_config(s: &str) -> (r: Result<ClientConfig, ConfigError>)
    ensures
        match parse_config_spec(s@) {
            Option::Some(at) => r matches Ok(c) && c.server_addr@ == at.0 && c.token@ == at.1
                && c.timeout_secs == 30,
            Option::None => r == Err::<ClientConfig, ConfigError>(ConfigError::Malformed),
        },
{
    let len = s.unicode_len();
    let q0 = skip_ws(s, 0);
    proof {
        assert(s@.skip(0) =~= s@);
        if q0 < len {
            assert(s@[q0 as int] == s@.skip(0)[q0 as int]);
        }
    }
    if q0 == len {
        return Err(ConfigError::Malformed);
    }
    if s.get_char(q0) != '{' {
        return Err(ConfigError::Malformed);
    }
    match parse_config_members(s, q0 + 1, None, None, len as u64) {
        None => Err(ConfigError::Malformed),
        Some(((sa, at), q1)) => {
            let q2 = skip_ws(s, q1);
            if q2 != len {
                return Err(ConfigError::Malformed);
            }
            match (sa, at) {
                (Some(a), Some(t)) => Ok(
                    ClientConfig { server_addr: a, token: t, timeout_secs: 30 },
                ),
                _ => Err(ConfigError::Malformed),
            }
        },
    }
}

/// Render a configuration as its JSON text.
pub fn render_client_config(config: &ClientConfig) -> (out: String)
    ensures
        out@ == render_config_spec(config.server_addr@, config.token@),
{
    let mut out = String::from_str("{\"server_address\":\"");
    append_json_escaped(&mut out, config.server_addr.as_str());
    out.append("\",\"auth_token\":\"");
    append_json_escaped(&mut out, config.token.as_str());
    out.append("\"}");
    out
}

// --- rendering parses back -----------------------------------------------

/// A string with no control characters, whatever else it holds.
pub open spec fn printable(s: Seq<char>) -> bool {
    forall|i: int| 0 <= i < s.len() ==> (#[trigger] s[i] as u32) >= 32
}

/// A string that passes through a JSON string unescaped: no quote, no
/// backslash, no control character.
pub open spec fn plain_chars(s: Seq<char>) -> bool {
    forall|i: int|
        0 <= i < s.len() ==> (#[trigger] s[i]) != '"' && s[i] != '\\' && (s[i] as u32) >= 32
}

/// An escaped string body followed by its closing quote reads back as
/// the string.
proof fn lemma_string_body_round_trip(x: Seq<char>, rest: Seq<char>)
    requires
        printable(x),
    ensures
        take_string_body(json_escape(x) + (seq!['"'] + rest)) == Some::<(Seq<char>, int)>(
            (x, json_escape(x).len() + 1 as int),
        ),
    decreases x.len(),
{
    let s = json_escape(x) + (seq!['"'] + rest);
    if x.len() == 0 {
        assert(s =~= seq!['"'] + rest);
        assert(s[0] == '"');
        assert(x =~= Seq::<char>::empty());
    } else {
        let c = x[0];
        lemma_string_body_round_trip(x.skip(1), rest);
        let inner = json_escape(x.skip(1)) + (seq!['"'] + rest);
        if c == '"' || c == '\\' {
            assert(escape_char(c) =~= seq!['\\', c]);
            assert(s =~= seq!['\\', c] + inner);
            assert(s[0] == '\\' && s[1] == c);
            assert(unescape(c) == Some(c));
            assert(s.skip(2) =~= inner);
            assert(seq![c] + x.skip(1) =~= x);
        } else {
            assert(escape_char(c) =~= seq![c]);
            assert(s =~= seq![c] + inner);
            assert(s[0] == c);
            assert((c as u32) >= 32);
            assert(s.skip(1) =~= inner);
            assert(seq![c] + x.skip(1) =~= x);
        }
    }
}

/// An unescaped string body followed by its closing quote reads back
/// as itself.
proof fn lemma_plain_string_round_trip(k: Seq<char>, rest: Seq<char>)
    requires
        plain_chars(k),
    ensures
        take_string_body(k + (seq!['"'] + rest)) == Some::<(Seq<char>, int)>((k, k.len() + 1 as int)),
    decreases k.len(),
{
    let s = k + (seq!['"'] + rest);
    if k.len() == 0 {
        assert(s =~= seq!['"'] + rest);
        assert(s[0] == '"');
        assert(k =~= Seq::<char>::empty());
    } else {
        lemma_plain_string_round_trip(k.skip(1), rest);
        assert(s[0] == k[0]);
        assert(s.skip(1) =~= k.skip(1) + (seq!['"'] + rest));
        assert(seq![k[0]] + k.skip(1) =~= k);
    }
}

/// The JSON text of one member.
pub open spec fn render_member(k: Seq<char>, v: Seq<char>) -> Seq<char> {
    seq!['"'] + k + seq!['"', ':', '"'] + json_escape(v) + seq!['"']
}

/// Where each piece of a rendered member stands in the text: the key
/// right after the opening quote, the colon and the value quote next,
/// the escaped value behind them, and the rest of the text after the
/// closing quote.
#[verifier::rlimit(100)]
#[verifier::spinoff_prover]
proof fn lemma_member_parts(k: Seq<char>, v: Seq<char>, rest: Seq<char>)
    requires
        plain_chars(k),
        printable(v),
    ensures
        (render_member(k, v) + rest).len() > 0,
        ws_len(render_member(k, v) + rest) == 0,
        (render_member(k, v) + rest)[0] == '"',
        take_string_body((render_member(k, v) + rest).skip(1)) == Some::<(Seq<char>, int)>(
            (k, k.len() + 1 as int),
        ),
        k.len() + 2 < (render_member(k, v) + rest).len(),
        (render_member(k, v) + rest)[k.len() + 2 as int] == ':',
        ws_len((render_member(k, v) + rest).skip(k.len() + 2 as int)) == 0,
        k.len() + 3 < (render_member(k, v) + rest).len(),
        (render_member(k, v) + rest)[k.len() + 3 as int] == '"',
        ws_len((render_member(k, v) + rest).skip(k.len() + 3 as int)) == 0,
        take_string_body((render_member(k, v) + rest).skip(k.len() + 4 as int)) == Some::<
            (Seq<char>, int),
        >((v, json_escape(v).len() + 1 as int)),
        render_member(k, v).len() == k.len() + json_escape(v).len() + 5,
        (render_member(k, v) + rest).skip(render_member(k, v).len() as int) == rest,
{
    let s = render_member(k, v) + rest;
    let vpart = json_escape(v) + (seq!['"'] + rest);
    assert(s =~= seq!['"'] + (k + (seq!['"'] + (seq![':'] + (seq!['"'] + vpart)))));
    assert(s[0] == '"');
    assert(!ws_char('"'));
    assert(ws_len(s) == 0);
    assert(s.skip(1) =~= k + (seq!['"'] + (seq![':'] + (seq!['"'] + vpart))));
    lemma_plain_string_round_trip(k, seq![':'] + (seq!['"'] + vpart));
    let p1 = 1 + k.len() + 1;
    assert(s.skip(p1 as int) =~= seq![':'] + (seq!['"'] + vpart));
    assert(s[p1 as int] == ':');
    assert(!ws_char(':'));
    assert(ws_len(s.skip(p1 as int)) == 0);
    let p3 = p1 + 1;
    assert(s.skip(p3 as int) =~= seq!['"'] + vpart);
    assert(s[p3 as int] == '"');
    assert(ws_len(s.skip(p3 as int)) == 0);
    assert(s.skip(p3 + 1 as int) =~= vpart);
    lemma_string_body_round_trip(v, rest);
    assert(take_string_body(vpart) == Some::<(Seq<char>, int)>(
        (v, json_escape(v).len() + 1 as int),
    ));
    assert(s.skip(render_member(k, v).len() as int) =~= rest);
}

/// The keys of the configuration object pass through a JSON string
/// unchanged.
proof fn lemma_keys_plain()
    ensures
        plain_chars("server_address"@),
        plain_chars("auth_token"@),
{
    reveal_strlit("server_address");
    reveal_strlit("auth_token");
}

/// The rendered configuration, split at its members.
proof fn lemma_render_decompose(addr: Seq<char>, tok: Seq<char>)
    ensures
        render_config_spec(addr, tok) == seq!['{'] + (render_member("server_address"@, addr) + (
        seq![','] + (render_member("auth_token"@, tok) + seq!['}']))),
{
    reveal_strlit("{\"server_address\":\"");
    reveal_strlit("\",\"auth_token\":\"");
    reveal_strlit("\"}");
    reveal_strlit("server_address");
    reveal_strlit("auth_token");
    assert(render_config_spec(addr, tok) =~= seq!['{'] + (render_member("server_address"@, addr)
        + (seq![','] + (render_member("auth_token"@, tok) + seq!['}']))));
}

/// One rendered member at the head of the member walk: the walk takes
/// it, binds it to its key, and goes on behind it.
#[verifier::rlimit(100)]
#[verifier::spinoff_prover]
proof fn lemma_config_member_step(
    k: Seq<char>,
    v: Seq<char>,
    sa: Option<Seq<char>>,
    at: Option<Seq<char>>,
    rest: Seq<char>,
    depth: nat,
)
    requires
        plain_chars(k),
        printable(v),
        k == "server_address"@ || k == "auth_token"@,
        k == "server_address"@ ==> sa is None,
        k == "auth_token"@ ==> at is None,
    ensures
        ({
            let s1 = render_member(k, v) + rest;
            let sa2: Option<Seq<char>> = if k == "server_address"@ {
                Some(v)
            } else {
                sa
            };
            let at2: Option<Seq<char>> = if k == "auth_token"@ {
                Some(v)
            } else {
                at
            };
            let p4 = render_member(k, v).len() as int;
            let p5 = p4 + ws_len(rest);
            config_members(s1, sa, at, depth) == (if p5 < s1.len() && s1[p5] == ',' {
                match config_members(s1.skip(p5 + 1), sa2, at2, depth) {
                    Option::None => None,
                    Option::Some((sa4, at4, m)) => Some((sa4, at4, p5 + 1 + m)),
                }
            } else if p5 < s1.len() && s1[p5] == '}' {
                Some((sa2, at2, p5 + 1))
            } else {
                None
            })
        }),
{
    lemma_keys_plain();
    reveal_strlit("server_address");
    reveal_strlit("auth_token");
    assert("server_address"@.len() != "auth_token"@.len());
    lemma_member_parts(k, v, rest);
    let s1 = render_member(k, v) + rest;
    let w = ws_len(s1) as int;
    assert(w == 0);
    assert(s1[0] == '"');
    let n1 = k.len() + 1 as int;
    assert(take_string_body(s1.skip(1)) == Some::<(Seq<char>, int)>((k, n1)));
    let p1 = 1 + n1;
    assert(ws_len(s1.skip(p1)) == 0);
    assert(s1[p1] == ':');
    let p3 = p1 + 1;
    assert(ws_len(s1.skip(p3)) == 0);
    assert(s1[p3] == '"');
    assert(take_string_body(s1.skip(p3 + 1)) == Some::<(Seq<char>, int)>(
        (v, json_escape(v).len() + 1 as int),
    ));
    assert(s1.skip(p3)[0] == '"');
    assert(s1.skip(p3).skip(1) =~= s1.skip(p3 + 1));
    assert(take_member_value(s1.skip(p3), depth) == Some::<(Option<Seq<char>>, int)>(
        (Some(v), json_escape(v).len() + 2 as int),
    ));
    assert(bind_member(k, Some(v), sa, at) == (if k == "server_address"@ {
        Some::<(Option<Seq<char>>, Option<Seq<char>>)>((Some(v), at))
    } else {
        Some::<(Option<Seq<char>>, Option<Seq<char>>)>((sa, Some(v)))
    }));
    let p4 = p3 + 1 + json_escape(v).len() + 1;
    assert(p4 == render_member(k, v).len());
    assert(s1.skip(p4) == rest);
}

/// Loading what was rendered gives the same address and token back,
/// for any pair free of control characters.
#[verifier::rlimit(100)]
#[verifier::spinoff_prover]
pub proof fn lemma_config_round_trip(addr: Seq<char>, tok: Seq<char>)
    requires
        printable(addr),
        printable(tok),
    ensures
        parse_config_spec(render_config_spec(addr, tok)) == Some::<(Seq<char>, Seq<char>)>(
            (addr, tok),
        ),
{
    lemma_keys_plain();
    lemma_render_decompose(addr, tok);
    reveal_strlit("server_address");
    reveal_strlit("auth_token");
    let sa = "server_address"@;
    let at = "auth_token"@;
    let m1 = render_member(sa, addr);
    let m2 = render_member(at, tok);
    let s = render_config_spec(addr, tok);
    let depth = s.len() as nat;
    let rest1 = seq![','] + (m2 + seq!['}']);
    assert(s == seq!['{'] + (m1 + rest1));
    assert(s[0] == '{');
    assert(!ws_char('{'));
    assert(ws_len(s) == 0);
    assert(s.skip(1) =~= m1 + rest1);
    // first member
    lemma_config_member_step(sa, addr, None, None, rest1, depth);
    assert(!ws_char(','));
    assert(ws_len(rest1) == 0);
    assert((m1 + rest1)[m1.len() as int] == ',');
    assert((m1 + rest1).skip(m1.len() + 1 as int) =~= m2 + seq!['}']);
    // second member
    lemma_config_member_step(at, tok, Some(addr), None, seq!['}'], depth);
    assert(!ws_char('}'));
    assert(ws_len(seq!['}'])  == 0);
    assert((m2 + seq!['}'])[m2.len() as int] == '}');
    assert(config_members(m2 + seq!['}'], Some(addr), None, depth) == Some::<
        (Option<Seq<char>>, Option<Seq<char>>, int),
    >((Some(addr), Some(tok), m2.len() + 1 as int)));
    assert(config_members(m1 + rest1, None, None, depth) == Some::<
        (Option<Seq<char>>, Option<Seq<char>>, int),
    >((Some(addr), Some(tok), m1.len() + 1 + m2.len() + 1 as int)));
    let n = m1.len() + 1 + m2.len() + 1 as int;
    assert(1 + n == s.len());
    assert(s.skip(1 + n) =~= Seq::<char>::empty());
    assert(ws_len(s.skip(1 + n)) == 0);
    assert(sa != at) by {
        assert(sa.len() != at.len());
    };
}

} // verus!
