//! Participant send and receive paths.
//!
//! A participant tags every outbound line with its numeric id — the payload
//! is `"<id>:<text>"` — and immediately echoes the line locally as
//! `"Me: <text>"`, whatever the network later does with the datagram. On the
//! receive side the payload is decoded as UTF-8 (lossily), split at the first
//! `':'`, and either suppressed (its own echoed message), attributed
//! (`"User <id>: <text>"`), or shown raw when the prefix is not a sender tag.

use vstd::prelude::*;
use crate::codec::{
    all_digits, dec_chars, is_dec_digit, lemma_dec_chars_digits, lemma_parse_dec_chars,
    parse_u32_chars, parse_u32_decimal, u32_to_decimal,
};
use vstd::utf8::{decode_utf8, encode_utf8, encode_utf8_decode_utf8, encode_utf8_valid_utf8,
    valid_utf8};

verus! {

/// The index of the first `':'` in `s`, if any.
pub open spec fn first_colon(s: Seq<char>) -> Option<int>
    decreases s.len(),
{
    if s.len() == 0 {
        None
    } else if s[0] == ':' {
        Some(0)
    } else {
        match first_colon(s.drop_first()) {
            None => None,
            Some(i) => Some(i + 1),
        }
    }
}

/// `first_colon` finds exactly the least index holding `':'`.
pub proof fn lemma_first_colon_spec(s: Seq<char>)
    ensures
        match first_colon(s) {
            Some(i) => 0 <= i < s.len() && s[i] == ':' && (forall|j: int|
                0 <= j < i ==> s[j] != ':'),
            None => forall|j: int| 0 <= j < s.len() ==> s[j] != ':',
        },
    decreases s.len(),
{
    if s.len() > 0 && s[0] != ':' {
        let d = s.drop_first();
        lemma_first_colon_spec(d);
        assert(forall|j: int| 0 <= j < d.len() ==> d[j] == s[j + 1]);
        match first_colon(d) {
            None => {
                assert forall|j: int| 0 <= j < s.len() implies s[j] != ':' by {
                    if j > 0 {
                        assert(d[j - 1] == s[j]);
                    }
                }
            },
            Some(i) => {
                assert(s[i + 1] == d[i]);
                assert forall|j: int| 0 <= j < i + 1 implies s[j] != ':' by {
                    if j > 0 {
                        assert(d[j - 1] == s[j]);
                    }
                }
            },
        }
    }
}

/// In `prefix + ":" + rest` with a colon-free prefix, the first `':'` is the
/// separator itself.
pub proof fn lemma_first_colon_of_concat(prefix: Seq<char>, rest: Seq<char>)
    requires
        forall|j: int| 0 <= j < prefix.len() ==> prefix[j] != ':',
    ensures
        first_colon(prefix + seq![':'] + rest) == Some(prefix.len() as int),
    decreases prefix.len(),
{
    let s = prefix + seq![':'] + rest;
    if prefix.len() == 0 {
        assert(s[0] == ':');
    } else {
        assert(s[0] == prefix[0]);
        lemma_first_colon_of_concat(prefix.drop_first(), rest);
        assert(s.drop_first() =~= prefix.drop_first() + seq![':'] + rest);
    }
}

/// The wire payload for text sent by participant `id`.
pub open spec fn wire_chars(id: u32, text: Seq<char>) -> Seq<char> {
    dec_chars(id as nat) + seq![':'] + text
}

/// The optimistic local echo line for the participant's own text.
pub open spec fn echo_chars(text: Seq<char>) -> Seq<char> {
    "Me: "@ + text
}

/// The display line for text received from a remote sender.
pub open spec fn remote_chars(id: u32, text: Seq<char>) -> Seq<char> {
    "User "@ + dec_chars(id as nat) + ": "@ + text
}

/// The receive-path decision on a decoded payload: `None` suppresses the
/// message (it is this participant's own echo); otherwise the line to
/// display — attributed when the payload starts with a parsable sender tag,
/// the raw payload when it does not.
pub open spec fn display_decision(my_id: u32, msg: Seq<char>) -> Option<Seq<char>> {
    match first_colon(msg) {
        None => Some(msg),
        Some(i) => match parse_u32_chars(msg.take(i)) {
            None => Some(msg),
            Some(id) => if id == my_id {
                None
            } else {
                Some(remote_chars(id, msg.skip(i + 1)))
            },
        },
    }
}

/// Builds the outbound wire payload `"<id>:<text>"`.
pub fn encode_wire(id: u32, text: &str) -> (r: String)
    ensures
        r@ == wire_chars(id, text@),
{
    let mut s = u32_to_decimal(id);
    s.append(":");
    s.append(text);
    proof {
        reveal_strlit(":");
        assert(s@ =~= wire_chars(id, text@));
    }
    s
}

/// The local echo line `"Me: <text>"`.
pub fn local_echo(text: &str) -> (r: String)
    ensures
        r@ == echo_chars(text@),
{
    let mut s = String::from_str("Me: ");
    s.append(text);
    s
}

/// One send action: the wire payload to transmit and the echo line the
/// display shows at once. The echo never depends on what the network does
/// with the payload.
pub fn prepare_send(id: u32, text: &str) -> (r: (String, String))
    ensures
        r.0@ == wire_chars(id, text@),
        r.1@ == echo_chars(text@),
{
    (encode_wire(id, text), local_echo(text))
}

/// Finds the first `':'` of `s`, if any.
pub fn find_colon(s: &str) -> (r: Option<usize>)
    ensures
        (match r {
            Some(u) => u < s@.len() && first_colon(s@) == Some(u as int),
            None => first_colon(s@) is None,
        }),
{
    let n = s.unicode_len();
    let mut i: usize = 0;
    while i < n
        invariant
            n == s@.len(),
            0 <= i <= n,
            forall|j: int| 0 <= j < i ==> s@[j] != ':',
        decreases n - i,
    {
        let c = s.get_char(i);
        if c == ':' {
            proof {
                lemma_first_colon_spec(s@);
            }
            return Some(i);
        }
        i = i + 1;
    }
    proof {
        lemma_first_colon_spec(s@);
    }
    None
}

/// The receive-path decision on an already decoded message.
pub fn display_line(my_id: u32, msg: &str) -> (r: Option<String>)
    ensures
        r.deep_view() == display_decision(my_id, msg@),
{
    let n = msg.unicode_len();
    match find_colon(msg) {
        None => Some(msg.to_owned()),
        Some(ci) => {
            let left = msg.substring_char(0, ci);
            proof {
                assert(left@ =~= msg@.take(ci as int));
            }
            match parse_u32_decimal(left) {
                None => Some(msg.to_owned()),
                Some(id) => {
                    if id == my_id {
                        None
                    } else {
                        let text = msg.substring_char(ci + 1, n);
                        let mut out = String::from_str("User ");
                        let ds = u32_to_decimal(id);
                        out.append(ds.as_str());
                        out.append(": ");
                        out.append(text);
                        proof {
                            assert(text@ =~= msg@.skip(ci as int + 1));
                            assert(out@ =~= remote_chars(id, msg@.skip(ci as int + 1)));
                        }
                        Some(out)
                    }
                },
            }
        },
    }
}

/// What `String::from_utf8_lossy` returns on the given bytes: a function of
/// the bytes alone.
pub uninterp spec fn lossy_decoding(b: Seq<u8>) -> Seq<char>;

/// Relies on `String::from_utf8_lossy`: its result depends on the bytes
/// alone, and bytes that are valid UTF-8 decode exactly, with no
/// substitution.
#[verifier::external_body]
fn decode_lossy(b: &Vec<u8>) -> (r: String)
    ensures
        r@ == lossy_decoding(b@),
        valid_utf8(b@) ==> r@ == decode_utf8(b@),
{
    String::from_utf8_lossy(b).to_string()
}

/// The whole receive path for one datagram: decode the payload lossily, then
/// decide what the display layer gets to see.
pub fn receive_event(my_id: u32, payload: &Vec<u8>) -> (r: Option<String>)
    ensures
        r.deep_view() == display_decision(my_id, lossy_decoding(payload@)),
        valid_utf8(payload@) ==> r.deep_view() == display_decision(my_id, decode_utf8(payload@)),
{
    let msg = decode_lossy(payload);
    display_line(my_id, msg.as_str())
}

/// Self-filter law: a participant's own wire payload, received back without
/// modification, is never displayed — for every id and every text, colons in
/// the text included.
pub proof fn lemma_self_filter(p: u32, text: Seq<char>)
    ensures
        display_decision(p, wire_chars(p, text)) is None,
{
    lemma_wire_tag_parses(p, text);
}

/// Attribution law: another participant's wire payload, received without
/// modification, always displays as `"User <id>: <text>"` — its tag never
/// falls back to raw text and its text is recovered exactly.
pub proof fn lemma_remote_display(p: u32, q: u32, text: Seq<char>)
    requires
        p != q,
    ensures
        display_decision(p, wire_chars(q, text)) == Some(remote_chars(q, text)),
{
    lemma_wire_tag_parses(q, text);
}

/// Byte-level self-filter law: the UTF-8 bytes of a participant's own wire
/// payload — what actually crosses the network — are valid UTF-8, decode
/// back to that payload exactly, and so produce no display event on the
/// whole receive path.
pub proof fn lemma_self_filter_bytes(p: u32, text: Seq<char>)
    ensures
        valid_utf8(encode_utf8(wire_chars(p, text))),
        display_decision(p, decode_utf8(encode_utf8(wire_chars(p, text)))) is None,
{
    encode_utf8_valid_utf8(wire_chars(p, text));
    encode_utf8_decode_utf8(wire_chars(p, text));
    lemma_self_filter(p, text);
}

/// Byte-level attribution law: the UTF-8 bytes of another participant's wire
/// payload decode back to it and display attributed, text recovered exactly.
pub proof fn lemma_remote_display_bytes(p: u32, q: u32, text: Seq<char>)
    requires
        p != q,
    ensures
        valid_utf8(encode_utf8(wire_chars(q, text))),
        display_decision(p, decode_utf8(encode_utf8(wire_chars(q, text)))) == Some(
            remote_chars(q, text),
        ),
{
    encode_utf8_valid_utf8(wire_chars(q, text));
    encode_utf8_decode_utf8(wire_chars(q, text));
    lemma_remote_display(p, q, text);
}

/// A well-formed wire payload splits at the separator: the first colon sits
/// right after the digits, and the tag parses back to the sender's id.
proof fn lemma_wire_tag_parses(q: u32, text: Seq<char>)
    ensures
        ({
            let w = wire_chars(q, text);
            let digits = dec_chars(q as nat);
            &&& first_colon(w) == Some(digits.len() as int)
            &&& w.take(digits.len() as int) == digits
            &&& w.skip(digits.len() as int + 1) == text
            &&& parse_u32_chars(digits) == Some(q)
        }),
{
    let digits = dec_chars(q as nat);
    let w = wire_chars(q, text);
    lemma_dec_chars_digits(q as nat);
    assert forall|j: int| 0 <= j < digits.len() implies digits[j] != ':' by {
        assert(is_dec_digit(digits[j]));
    }
    lemma_first_colon_of_concat(digits, text);
    assert(w.take(digits.len() as int) =~= digits);
    assert(w.skip(digits.len() as int + 1) =~= text);
    lemma_parse_dec_chars(q);
}

} // verus!
