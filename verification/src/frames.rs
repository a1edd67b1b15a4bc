//! The wire grammar of the relay.
//!
//! Frames travel as text over the sockets; this module fixes, at the byte
//! level, which inbound host frames the router understands and how outbound
//! frames are rendered.
//!
//! A host frame is a JSON object whose members are string-valued, written in
//! any order with any interstitial whitespace, with no member key repeated:
//! either `{"type":"KeepAlive"}` or `{"type":"ToListener","to":T,"msg":M}`.
//! Members with other keys are ignored. String literals admit the escapes
//! `\"`, `\\`, `\/`, `\b`, `\f`, `\n`, `\r`, `\t` and `\uXXXX` for code
//! points up to `0x7F`; unescaped control bytes are refused. Rendering
//! escapes `"`, `\` and every control byte (the latter as `\u00XX`) and
//! leaves all other bytes as they are, so any byte string round-trips.

use vstd::prelude::*;

verus! {

// ---------------------------------------------------------------------------
// Byte classes and escapes
// ---------------------------------------------------------------------------

/// JSON interstitial whitespace: space, tab, line feed, carriage return.
pub open spec fn is_ws(b: u8) -> bool {
    b == 32 || b == 9 || b == 10 || b == 13
}

/// The longest whitespace prefix of `s`, removed.
pub open spec fn spec_skip_ws(s: Seq<u8>) -> Seq<u8>
    decreases s.len(),
{
    if s.len() > 0 && is_ws(s[0]) {
        spec_skip_ws(s.drop_first())
    } else {
        s
    }
}

/// The value of one hexadecimal digit, upper or lower case.
pub open spec fn spec_hex_val(b: u8) -> Option<u8> {
    if 48 <= b && b <= 57 {
        Some((b - 48) as u8)
    } else if 97 <= b && b <= 102 {
        Some((b - 87) as u8)
    } else if 65 <= b && b <= 70 {
        Some((b - 55) as u8)
    } else {
        None
    }
}

/// The value of four hexadecimal digits.
pub open spec fn spec_hex4(a: u8, b: u8, c: u8, d: u8) -> Option<int> {
    match (spec_hex_val(a), spec_hex_val(b), spec_hex_val(c), spec_hex_val(d)) {
        (Some(x), Some(y), Some(z), Some(w)) => Some(x * 4096 + y * 256 + z * 16 + w),
        _ => None,
    }
}

/// The byte a single-character escape stands for, if the character is one.
pub open spec fn spec_unescape_char(e: u8) -> Option<u8> {
    if e == 34 {  // \"
        Some(34u8)
    } else if e == 92 {  // \\
        Some(92u8)
    } else if e == 47 {  // \/
        Some(47u8)
    } else if e == 98 {  // \b
        Some(8u8)
    } else if e == 102 {  // \f
        Some(12u8)
    } else if e == 110 {  // \n
        Some(10u8)
    } else if e == 114 {  // \r
        Some(13u8)
    } else if e == 116 {  // \t
        Some(9u8)
    } else {
        None
    }
}

/// The lower-case hexadecimal digit for a value below sixteen.
pub open spec fn spec_hex_digit(n: int) -> u8 {
    if n < 10 {
        (48 + n) as u8
    } else {
        (87 + n) as u8
    }
}

/// How one byte is written inside a rendered string literal.
pub open spec fn spec_escape_byte(b: u8) -> Seq<u8> {
    if b == 34 {
        seq![92u8, 34u8]
    } else if b == 92 {
        seq![92u8, 92u8]
    } else if b < 32 {
        seq![92u8, 117u8, 48u8, 48u8, spec_hex_digit((b / 16) as int), spec_hex_digit((b % 16) as int)]
    } else {
        seq![b]
    }
}

/// How a whole byte string is written inside a rendered string literal.
pub open spec fn spec_escape(s: Seq<u8>) -> Seq<u8>
    decreases s.len(),
{
    if s.len() == 0 {
        Seq::empty()
    } else {
        spec_escape_byte(s[0]) + spec_escape(s.drop_first())
    }
}

// ---------------------------------------------------------------------------
// Parsing: string literals, members, objects
// ---------------------------------------------------------------------------

/// Parses the rest of a string literal, after its opening quote: the decoded
/// content and the bytes after the closing quote, or nothing on a stray
/// control byte, a bad escape, or a missing closing quote.
pub open spec fn spec_parse_string_body(s: Seq<u8>) -> Option<(Seq<u8>, Seq<u8>)>
    decreases s.len(),
{
    if s.len() == 0 {
        None
    } else if s[0] == 34 {  // closing quote
        Some((Seq::empty(), s.drop_first()))
    } else if s[0] == 92 {  // backslash
        if s.len() < 2 {
            None
        } else if s[1] == 117 {  // \uXXXX
            if s.len() < 6 {
                None
            } else {
                match spec_hex4(s[2], s[3], s[4], s[5]) {
                    Some(v) => if v <= 127 {
                        match spec_parse_string_body(s.skip(6)) {
                            Some((t, r)) => Some((seq![v as u8] + t, r)),
                            None => None,
                        }
                    } else {
                        None
                    },
                    None => None,
                }
            }
        } else {
            match spec_unescape_char(s[1]) {
                Some(c) => match spec_parse_string_body(s.skip(2)) {
                    Some((t, r)) => Some((seq![c] + t, r)),
                    None => None,
                },
                None => None,
            }
        }
    } else if s[0] < 32 {
        None
    } else {
        match spec_parse_string_body(s.drop_first()) {
            Some((t, r)) => Some((seq![s[0]] + t, r)),
            None => None,
        }
    }
}

/// Parses a whole string literal, opening quote included.
pub open spec fn spec_parse_quoted(s: Seq<u8>) -> Option<(Seq<u8>, Seq<u8>)> {
    if s.len() > 0 && s[0] == 34 {
        spec_parse_string_body(s.drop_first())
    } else {
        None
    }
}

proof fn lemma_skip_ws_len(s: Seq<u8>)
    ensures
        spec_skip_ws(s).len() <= s.len(),
    decreases s.len(),
{
    if s.len() > 0 && is_ws(s[0]) {
        lemma_skip_ws_len(s.drop_first());
    }
}

proof fn lemma_string_body_len(s: Seq<u8>)
    ensures
        spec_parse_string_body(s) matches Some(tr) ==> tr.1.len() < s.len(),
    decreases s.len(),
{
    if s.len() >= 1 {
        lemma_string_body_len(s.drop_first());
    }
    if s.len() >= 2 {
        lemma_string_body_len(s.skip(2));
    }
    if s.len() >= 6 {
        lemma_string_body_len(s.skip(6));
    }
}

proof fn lemma_quoted_len(s: Seq<u8>)
    ensures
        spec_parse_quoted(s) matches Some(tr) ==> tr.1.len() < s.len(),
{
    if s.len() > 0 && s[0] == 34 {
        lemma_string_body_len(s.drop_first());
    }
}

/// Parses a non-empty run of `"key":"value"` members and the closing brace.
/// Yields the members in order and the bytes after the brace.
pub open spec fn spec_parse_members(s: Seq<u8>) -> Option<(Seq<(Seq<u8>, Seq<u8>)>, Seq<u8>)>
    decreases s.len(),
    via spec_parse_members_decreases
{
    match spec_parse_quoted(s) {
        None => None,
        Some((k, r1)) => {
            let r2 = spec_skip_ws(r1);
            if r2.len() > 0 && r2[0] == 58 {  // colon
                let r3 = spec_skip_ws(r2.drop_first());
                match spec_parse_quoted(r3) {
                    None => None,
                    Some((v, r4)) => {
                        let r5 = spec_skip_ws(r4);
                        if r5.len() > 0 && r5[0] == 44 {  // comma
                            let r6 = spec_skip_ws(r5.drop_first());
                            match spec_parse_members(r6) {
                                None => None,
                                Some((ps, r7)) => Some((seq![(k, v)] + ps, r7)),
                            }
                        } else if r5.len() > 0 && r5[0] == 125 {  // closing brace
                            Some((seq![(k, v)], r5.drop_first()))
                        } else {
                            None
                        }
                    },
                }
            } else {
                None
            }
        },
    }
}

#[via_fn]
proof fn spec_parse_members_decreases(s: Seq<u8>) {
    lemma_quoted_len(s);
    match spec_parse_quoted(s) {
        None => {},
        Some((k, r1)) => {
            lemma_skip_ws_len(r1);
            let r2 = spec_skip_ws(r1);
            if r2.len() > 0 && r2[0] == 58 {
                lemma_skip_ws_len(r2.drop_first());
                let r3 = spec_skip_ws(r2.drop_first());
                lemma_quoted_len(r3);
                match spec_parse_quoted(r3) {
                    None => {},
                    Some((v, r4)) => {
                        lemma_skip_ws_len(r4);
                        let r5 = spec_skip_ws(r4);
                        if r5.len() > 0 && r5[0] == 44 {
                            lemma_skip_ws_len(r5.drop_first());
                        }
                    },
                }
            }
        },
    }
}

/// Parses one object: the members in order and the bytes after it.
pub open spec fn spec_parse_object(s: Seq<u8>) -> Option<(Seq<(Seq<u8>, Seq<u8>)>, Seq<u8>)> {
    let t = spec_skip_ws(s);
    if t.len() > 0 && t[0] == 123 {  // opening brace
        let u = spec_skip_ws(t.drop_first());
        if u.len() > 0 && u[0] == 125 {  // closing brace
            Some((Seq::empty(), u.drop_first()))
        } else {
            spec_parse_members(u)
        }
    } else {
        None
    }
}

// ---------------------------------------------------------------------------
// Interpreting an object as a host frame
// ---------------------------------------------------------------------------

/// A decoded inbound host frame.
pub enum SpecHostFrame {
    /// A liveness ping; carries nothing.
    KeepAlive,
    /// A directed relay: deliver `msg` to listener `to` of the sender's room.
    ToListener { to: Seq<u8>, msg: Seq<u8> },
}

pub open spec fn key_type() -> Seq<u8> {
    seq![116u8, 121u8, 112u8, 101u8]  // "type"
}

pub open spec fn key_to() -> Seq<u8> {
    seq![116u8, 111u8]  // "to"
}

pub open spec fn key_msg() -> Seq<u8> {
    seq![109u8, 115u8, 103u8]  // "msg"
}

pub open spec fn tag_keep_alive() -> Seq<u8> {
    seq![75u8, 101u8, 101u8, 112u8, 65u8, 108u8, 105u8, 118u8, 101u8]  // "KeepAlive"
}

pub open spec fn tag_to_listener() -> Seq<u8> {
    seq![84u8, 111u8, 76u8, 105u8, 115u8, 116u8, 101u8, 110u8, 101u8, 114u8]  // "ToListener"
}

/// The value of the first member with key `k`, if any.
pub open spec fn spec_lookup(ps: Seq<(Seq<u8>, Seq<u8>)>, k: Seq<u8>) -> Option<Seq<u8>>
    decreases ps.len(),
{
    if ps.len() == 0 {
        None
    } else if ps[0].0 == k {
        Some(ps[0].1)
    } else {
        spec_lookup(ps.drop_first(), k)
    }
}

pub open spec fn spec_keys_distinct(ps: Seq<(Seq<u8>, Seq<u8>)>) -> bool {
    forall|i: int, j: int| 0 <= i < j < ps.len() ==> ps[i].0 != ps[j].0
}

/// Reads a member list as a host frame: the tag decides the variant, a
/// `ToListener` needs its target and payload, members with other keys are
/// ignored, and a repeated key refuses the frame.
pub open spec fn spec_interp_pairs(ps: Seq<(Seq<u8>, Seq<u8>)>) -> Option<SpecHostFrame> {
    if !spec_keys_distinct(ps) {
        None
    } else {
        match spec_lookup(ps, key_type()) {
            None => None,
            Some(tag) => if tag == tag_keep_alive() {
                Some(SpecHostFrame::KeepAlive)
            } else if tag == tag_to_listener() {
                match (spec_lookup(ps, key_to()), spec_lookup(ps, key_msg())) {
                    (Some(to), Some(m)) => Some(SpecHostFrame::ToListener { to: to, msg: m }),
                    _ => None,
                }
            } else {
                None
            },
        }
    }
}

/// What one inbound host frame means: a variant, or nothing when malformed.
/// The whole input must be one object, up to trailing whitespace.
pub open spec fn spec_parse_host_frame(s: Seq<u8>) -> Option<SpecHostFrame> {
    match spec_parse_object(s) {
        None => None,
        Some((ps, rest)) => if spec_skip_ws(rest).len() == 0 {
            spec_interp_pairs(ps)
        } else {
            None
        },
    }
}

// ---------------------------------------------------------------------------
// Rendering
// ---------------------------------------------------------------------------

pub open spec fn key_from() -> Seq<u8> {
    seq![102u8, 114u8, 111u8, 109u8]  // "from"
}

/// A rendered string literal: the escaped content between quotes.
pub open spec fn spec_quoted(x: Seq<u8>) -> Seq<u8> {
    seq![34u8] + spec_escape(x) + seq![34u8]
}

/// The frame the router sends to the host when listener `from` says `msg`:
/// `{"from":F,"msg":M}`.
pub open spec fn spec_render_to_host(from: Seq<u8>, msg: Seq<u8>) -> Seq<u8> {
    seq![123u8] + spec_quoted(key_from()) + seq![58u8] + spec_quoted(from) + seq![44u8]
        + spec_quoted(key_msg()) + seq![58u8] + spec_quoted(msg) + seq![125u8]
}

/// The canonical rendering of a `ToListener` host frame:
/// `{"type":"ToListener","to":T,"msg":M}`.
pub open spec fn spec_render_to_listener(to: Seq<u8>, msg: Seq<u8>) -> Seq<u8> {
    seq![123u8] + spec_quoted(key_type()) + seq![58u8] + spec_quoted(tag_to_listener())
        + seq![44u8] + spec_quoted(key_to()) + seq![58u8] + spec_quoted(to) + seq![44u8]
        + spec_quoted(key_msg()) + seq![58u8] + spec_quoted(msg) + seq![125u8]
}

/// The canonical rendering of a `KeepAlive` host frame: `{"type":"KeepAlive"}`.
pub open spec fn spec_render_keep_alive() -> Seq<u8> {
    seq![123u8] + spec_quoted(key_type()) + seq![58u8] + spec_quoted(tag_keep_alive())
        + seq![125u8]
}

/// Escaping leaves a string of ordinary bytes as it is.
proof fn lemma_escape_plain(s: Seq<u8>)
    requires
        forall|i: int| 0 <= i < s.len() ==> 32 <= s[i] && s[i] != 34 && s[i] != 92,
    ensures
        spec_escape(s) == s,
    decreases s.len(),
{
    if s.len() == 0 {
        assert(spec_escape(s) =~= s);
    } else {
        lemma_escape_plain(s.drop_first());
        assert(spec_escape(s) == seq![s[0]] + s.drop_first());
        assert(seq![s[0]] + s.drop_first() =~= s);
    }
}

// ---------------------------------------------------------------------------
// Executable frames
// ---------------------------------------------------------------------------

/// A decoded inbound host frame, as executable data.
#[derive(Debug)]
pub enum HostFrame {
    KeepAlive,
    ToListener { to: Vec<u8>, msg: Vec<u8> },
}

impl View for HostFrame {
    type V = SpecHostFrame;

    open spec fn view(&self) -> SpecHostFrame {
        match self {
            HostFrame::KeepAlive => SpecHostFrame::KeepAlive,
            HostFrame::ToListener { to, msg } => SpecHostFrame::ToListener {
                to: to@,
                msg: msg@,
            },
        }
    }
}

// ---------------------------------------------------------------------------
// Executable parsing
// ---------------------------------------------------------------------------

/// `s` with its first `i` elements removed, one element later.
proof fn lemma_skip_step<T>(s: Seq<T>, i: int)
    requires
        0 <= i < s.len(),
    ensures
        s.skip(i).drop_first() == s.skip(i + 1),
{
    assert(s.skip(i).drop_first() =~= s.skip(i + 1));
}

proof fn lemma_skip_skip<T>(s: Seq<T>, i: int, k: int)
    requires
        0 <= i,
        0 <= k,
        i + k <= s.len(),
    ensures
        s.skip(i).skip(k) == s.skip(i + k),
{
    assert(s.skip(i).skip(k) =~= s.skip(i + k));
}

/// Byte-string equality, decided element by element.
pub(crate) fn bytes_eq(a: &Vec<u8>, b: &Vec<u8>) -> (r: bool)
    ensures
        r == (a@ == b@),
{
    if a.len() != b.len() {
        return false;
    }
    let mut i: usize = 0;
    while i < a.len()
        invariant
            i <= a@.len(),
            a@.len() == b@.len(),
            forall|j: int| 0 <= j < i ==> a@[j] == b@[j],
        decreases a@.len() - i,
    {
        if a[i] != b[i] {
            return false;
        }
        i = i + 1;
    }
    proof {
        assert(a@ =~= b@);
    }
    true
}

fn ws_byte(b: u8) -> (r: bool)
    ensures
        r == is_ws(b),
{
    b == 32 || b == 9 || b == 10 || b == 13
}

/// Advances past interstitial whitespace.
fn skip_ws(s: &Vec<u8>, i: usize) -> (j: usize)
    requires
        i <= s@.len(),
    ensures
        i <= j <= s@.len(),
        spec_skip_ws(s@.skip(i as int)) == s@.skip(j as int),
{
    let mut j = i;
    while j < s.len() && ws_byte(s[j])
        invariant
            i <= j <= s@.len(),
            spec_skip_ws(s@.skip(i as int)) == spec_skip_ws(s@.skip(j as int)),
        decreases s@.len() - j,
    {
        proof {
            lemma_skip_step(s@, j as int);
        }
        j = j + 1;
    }
    j
}

fn hex_val(b: u8) -> (r: Option<u8>)
    ensures
        r == spec_hex_val(b),
{
    if 48 <= b && b <= 57 {
        Some(b - 48)
    } else if 97 <= b && b <= 102 {
        Some(b - 87)
    } else if 65 <= b && b <= 70 {
        Some(b - 55)
    } else {
        None
    }
}

fn hex4(a: u8, b: u8, c: u8, d: u8) -> (r: Option<u16>)
    ensures
        match r {
            None => spec_hex4(a, b, c, d) is None,
            Some(v) => spec_hex4(a, b, c, d) == Some(v as int),
        },
{
    match (hex_val(a), hex_val(b), hex_val(c), hex_val(d)) {
        (Some(x), Some(y), Some(z), Some(w)) => {
            let v: u16 = (x as u16) * 4096 + (y as u16) * 256 + (z as u16) * 16 + (w as u16);
            Some(v)
        },
        _ => None,
    }
}

fn unescape_char(e: u8) -> (r: Option<u8>)
    ensures
        r == spec_unescape_char(e),
{
    if e == 34 {
        Some(34)
    } else if e == 92 {
        Some(92)
    } else if e == 47 {
        Some(47)
    } else if e == 98 {
        Some(8)
    } else if e == 102 {
        Some(12)
    } else if e == 110 {
        Some(10)
    } else if e == 114 {
        Some(13)
    } else if e == 116 {
        Some(9)
    } else {
        None
    }
}

/// `o` with `p` prepended to its parsed content.
spec fn opt_prepend(p: Seq<u8>, o: Option<(Seq<u8>, Seq<u8>)>) -> Option<
    (Seq<u8>, Seq<u8>),
> {
    match o {
        None => None,
        Some((t, r)) => Some((p + t, r)),
    }
}

proof fn lemma_prepend_assoc(p: Seq<u8>, q: Seq<u8>, o: Option<(Seq<u8>, Seq<u8>)>)
    ensures
        opt_prepend(p, opt_prepend(q, o)) == opt_prepend(p + q, o),
{
    match o {
        None => {},
        Some((t, r)) => {
            assert(p + (q + t) =~= (p + q) + t);
        },
    }
}

/// Parses the rest of a string literal, after its opening quote.
fn parse_string_body(s: &Vec<u8>, start: usize) -> (r: Option<(Vec<u8>, usize)>)
    requires
        start <= s@.len(),
    ensures
        match r {
            None => spec_parse_string_body(s@.skip(start as int)) is None,
            Some(p) => {
                &&& start < p.1 <= s@.len()
                &&& spec_parse_string_body(s@.skip(start as int)) == Some(
                    (p.0@, s@.skip(p.1 as int)),
                )
            },
        },
{
    let mut acc: Vec<u8> = Vec::new();
    let mut i = start;
    proof {
        match spec_parse_string_body(s@.skip(start as int)) {
            Some((t, r)) => {
                assert(Seq::<u8>::empty() + t =~= t);
            },
            None => {},
        }
    }
    loop
        invariant
            start <= i <= s@.len(),
            spec_parse_string_body(s@.skip(start as int)) == opt_prepend(
                acc@,
                spec_parse_string_body(s@.skip(i as int)),
            ),
        decreases s@.len() - i,
    {
        if i >= s.len() {
            return None;
        }
        let b = s[i];
        proof {
            lemma_skip_step(s@, i as int);
        }
        if b == 34 {
            proof {
                match spec_parse_string_body(s@.skip(i as int)) {
                    Some((t, r)) => {
                        assert(acc@ + Seq::<u8>::empty() =~= acc@);
                    },
                    None => {},
                }
            }
            return Some((acc, i + 1));
        } else if b == 92 {
            if i + 1 >= s.len() {
                return None;
            }
            let e = s[i + 1];
            if e == 117 {
                if s.len() - i < 6 {
                    return None;
                }
                proof {
                    lemma_skip_skip(s@, i as int, 6);
                }
                match hex4(s[i + 2], s[i + 3], s[i + 4], s[i + 5]) {
                    None => {
                        return None;
                    },
                    Some(v) => {
                        if v <= 127 {
                            let ghost old_acc = acc@;
                            acc.push(v as u8);
                            proof {
                                lemma_prepend_assoc(
                                    old_acc,
                                    seq![v as u8],
                                    spec_parse_string_body(s@.skip(i as int + 6)),
                                );
                                assert(old_acc + seq![v as u8] =~= acc@);
                            }
                            i = i + 6;
                        } else {
                            return None;
                        }
                    },
                }
            } else {
                proof {
                    lemma_skip_skip(s@, i as int, 2);
                }
                match unescape_char(e) {
                    None => {
                        return None;
                    },
                    Some(c) => {
                        let ghost old_acc = acc@;
                        acc.push(c);
                        proof {
                            lemma_prepend_assoc(
                                old_acc,
                                seq![c],
                                spec_parse_string_body(s@.skip(i as int + 2)),
                            );
                            assert(old_acc + seq![c] =~= acc@);
                        }
                        i = i + 2;
                    },
                }
            }
        } else if b < 32 {
            return None;
        } else {
            let ghost old_acc = acc@;
            acc.push(b);
            proof {
                lemma_prepend_assoc(
                    old_acc,
                    seq![b],
                    spec_parse_string_body(s@.skip(i as int + 1)),
                );
                assert(old_acc + seq![b] =~= acc@);
            }
            i = i + 1;
        }
    }
}

/// Parses a whole string literal, opening quote included.
fn parse_quoted(s: &Vec<u8>, i: usize) -> (r: Option<(Vec<u8>, usize)>)
    requires
        i <= s@.len(),
    ensures
        match r {
            None => spec_parse_quoted(s@.skip(i as int)) is None,
            Some(p) => {
                &&& i < p.1 <= s@.len()
                &&& spec_parse_quoted(s@.skip(i as int)) == Some((p.0@, s@.skip(p.1 as int)))
            },
        },
{
    if i < s.len() && s[i] == 34 {
        proof {
            lemma_skip_step(s@, i as int);
        }
        parse_string_body(s, i + 1)
    } else {
        None
    }
}

/// The member list of an executable pair vector, as parsed content.
spec fn pairs_view(l: Seq<(Vec<u8>, Vec<u8>)>) -> Seq<(Seq<u8>, Seq<u8>)> {
    l.map_values(|p: (Vec<u8>, Vec<u8>)| (p.0@, p.1@))
}

/// `o` with `p` prepended to its member list.
spec fn opt_prepend_pairs(
    p: Seq<(Seq<u8>, Seq<u8>)>,
    o: Option<(Seq<(Seq<u8>, Seq<u8>)>, Seq<u8>)>,
) -> Option<(Seq<(Seq<u8>, Seq<u8>)>, Seq<u8>)> {
    match o {
        None => None,
        Some((t, r)) => Some((p + t, r)),
    }
}

proof fn lemma_prepend_pairs_assoc(
    p: Seq<(Seq<u8>, Seq<u8>)>,
    q: Seq<(Seq<u8>, Seq<u8>)>,
    o: Option<(Seq<(Seq<u8>, Seq<u8>)>, Seq<u8>)>,
)
    ensures
        opt_prepend_pairs(p, opt_prepend_pairs(q, o)) == opt_prepend_pairs(p + q, o),
{
    match o {
        None => {},
        Some((t, r)) => {
            assert(p + (q + t) =~= (p + q) + t);
        },
    }
}

/// Parses a non-empty run of members and the closing brace.
fn parse_members(s: &Vec<u8>, start: usize) -> (r: Option<(Vec<(Vec<u8>, Vec<u8>)>, usize)>)
    requires
        start <= s@.len(),
    ensures
        match r {
            None => spec_parse_members(s@.skip(start as int)) is None,
            Some(p) => {
                &&& start < p.1 <= s@.len()
                &&& spec_parse_members(s@.skip(start as int)) == Some(
                    (pairs_view(p.0@), s@.skip(p.1 as int)),
                )
            },
        },
{
    let mut acc: Vec<(Vec<u8>, Vec<u8>)> = Vec::new();
    let mut i = start;
    proof {
        assert(pairs_view(acc@) =~= Seq::<(Seq<u8>, Seq<u8>)>::empty());
        match spec_parse_members(s@.skip(start as int)) {
            Some((t, r)) => {
                assert(Seq::<(Seq<u8>, Seq<u8>)>::empty() + t =~= t);
            },
            None => {},
        }
    }
    loop
        invariant
            start <= i <= s@.len(),
            spec_parse_members(s@.skip(start as int)) == opt_prepend_pairs(
                pairs_view(acc@),
                spec_parse_members(s@.skip(i as int)),
            ),
        decreases s@.len() - i,
    {
        match parse_quoted(s, i) {
            None => {
                return None;
            },
            Some((k, j1)) => {
                let j2 = skip_ws(s, j1);
                if !(j2 < s.len() && s[j2] == 58) {
                    return None;
                }
                proof {
                    lemma_skip_step(s@, j2 as int);
                }
                let j3 = skip_ws(s, j2 + 1);
                match parse_quoted(s, j3) {
                    None => {
                        return None;
                    },
                    Some((v, j4)) => {
                        let j5 = skip_ws(s, j4);
                        if j5 < s.len() && s[j5] == 44 {
                            proof {
                                lemma_skip_step(s@, j5 as int);
                            }
                            let j6 = skip_ws(s, j5 + 1);
                            let ghost old_acc = acc@;
                            let ghost kv = (k@, v@);
                            acc.push((k, v));
                            proof {
                                assert(spec_parse_members(s@.skip(i as int)) == opt_prepend_pairs(
                                    seq![kv],
                                    spec_parse_members(s@.skip(j6 as int)),
                                ));
                                lemma_prepend_pairs_assoc(
                                    pairs_view(old_acc),
                                    seq![kv],
                                    spec_parse_members(s@.skip(j6 as int)),
                                );
                                assert(pairs_view(old_acc) + seq![kv] =~= pairs_view(acc@));
                            }
                            i = j6;
                        } else if j5 < s.len() && s[j5] == 125 {
                            proof {
                                lemma_skip_step(s@, j5 as int);
                            }
                            let ghost old_acc = acc@;
                            let ghost kv = (k@, v@);
                            acc.push((k, v));
                            proof {
                                assert(spec_parse_members(s@.skip(i as int)) == Some(
                                    (seq![kv], s@.skip(j5 as int + 1)),
                                ));
                                assert(pairs_view(old_acc) + seq![kv] =~= pairs_view(acc@));
                            }
                            return Some((acc, j5 + 1));
                        } else {
                            return None;
                        }
                    },
                }
            },
        }
    }
}

/// Parses one whole object, yielding its members.
fn parse_object_pairs(s: &Vec<u8>) -> (r: Option<(Vec<(Vec<u8>, Vec<u8>)>, usize)>)
    ensures
        match r {
            None => spec_parse_object(s@) is None,
            Some(p) => {
                &&& p.1 <= s@.len()
                &&& spec_parse_object(s@) == Some((pairs_view(p.0@), s@.skip(p.1 as int)))
            },
        },
{
    proof {
        assert(s@.skip(0) =~= s@);
    }
    let t = skip_ws(s, 0);
    if t < s.len() && s[t] == 123 {
        proof {
            lemma_skip_step(s@, t as int);
        }
        let u = skip_ws(s, t + 1);
        if u < s.len() && s[u] == 125 {
            proof {
                lemma_skip_step(s@, u as int);
                assert(pairs_view(Seq::<(Vec<u8>, Vec<u8>)>::empty()) =~= Seq::<
                    (Seq<u8>, Seq<u8>),
                >::empty());
            }
            let empty: Vec<(Vec<u8>, Vec<u8>)> = Vec::new();
            Some((empty, u + 1))
        } else {
            parse_members(s, u)
        }
    } else {
        None
    }
}

fn key_type_vec() -> (k: Vec<u8>)
    ensures
        k@ == key_type(),
{
    let mut k: Vec<u8> = Vec::new();
    k.push(116);
    k.push(121);
    k.push(112);
    k.push(101);
    proof {
        assert(k@ =~= key_type());
    }
    k
}

fn key_to_vec() -> (k: Vec<u8>)
    ensures
        k@ == key_to(),
{
    let mut k: Vec<u8> = Vec::new();
    k.push(116);
    k.push(111);
    proof {
        assert(k@ =~= key_to());
    }
    k
}

fn key_msg_vec() -> (k: Vec<u8>)
    ensures
        k@ == key_msg(),
{
    let mut k: Vec<u8> = Vec::new();
    k.push(109);
    k.push(115);
    k.push(103);
    proof {
        assert(k@ =~= key_msg());
    }
    k
}

fn tag_keep_alive_vec() -> (k: Vec<u8>)
    ensures
        k@ == tag_keep_alive(),
{
    let mut k: Vec<u8> = Vec::new();
    k.push(75);
    k.push(101);
    k.push(101);
    k.push(112);
    k.push(65);
    k.push(108);
    k.push(105);
    k.push(118);
    k.push(101);
    proof {
        assert(k@ =~= tag_keep_alive());
    }
    k
}

fn tag_to_listener_vec() -> (k: Vec<u8>)
    ensures
        k@ == tag_to_listener(),
{
    let mut k: Vec<u8> = Vec::new();
    k.push(84);
    k.push(111);
    k.push(76);
    k.push(105);
    k.push(115);
    k.push(116);
    k.push(101);
    k.push(110);
    k.push(101);
    k.push(114);
    proof {
        assert(k@ =~= tag_to_listener());
    }
    k
}

/// Looking a key up skips any prefix in which it does not occur.
proof fn lemma_lookup_skip(ps: Seq<(Seq<u8>, Seq<u8>)>, k: Seq<u8>, i: int)
    requires
        0 <= i <= ps.len(),
        forall|j: int| 0 <= j < i ==> ps[j].0 != k,
    ensures
        spec_lookup(ps, k) == spec_lookup(ps.skip(i), k),
    decreases i,
{
    if i == 0 {
        assert(ps.skip(0) =~= ps);
    } else {
        lemma_lookup_skip(ps, k, i - 1);
        lemma_skip_step(ps, i - 1);
        assert(spec_lookup(ps.skip(i - 1), k) == spec_lookup(ps.skip(i), k));
    }
}

/// The index of the first member with key `k`, if any.
fn find_key(ps: &Vec<(Vec<u8>, Vec<u8>)>, k: &Vec<u8>) -> (r: Option<usize>)
    ensures
        match r {
            None => spec_lookup(pairs_view(ps@), k@) is None,
            Some(idx) => {
                &&& idx < ps@.len()
                &&& ps@[idx as int].0@ == k@
                &&& spec_lookup(pairs_view(ps@), k@) == Some(ps@[idx as int].1@)
            },
        },
{
    let mut i: usize = 0;
    while i < ps.len()
        invariant
            i <= ps@.len(),
            forall|j: int| 0 <= j < i ==> pairs_view(ps@)[j].0 != k@,
        decreases ps@.len() - i,
    {
        if bytes_eq(&ps[i].0, k) {
            proof {
                lemma_lookup_skip(pairs_view(ps@), k@, i as int);
                assert(pairs_view(ps@).skip(i as int)[0] == pairs_view(ps@)[i as int]);
            }
            return Some(i);
        }
        proof {
            assert(pairs_view(ps@)[i as int].0 == ps@[i as int].0@);
        }
        i = i + 1;
    }
    proof {
        lemma_lookup_skip(pairs_view(ps@), k@, ps@.len() as int);
        assert(pairs_view(ps@).skip(ps@.len() as int).len() == 0);
    }
    None
}

/// Whether no member key repeats.
fn keys_distinct(ps: &Vec<(Vec<u8>, Vec<u8>)>) -> (r: bool)
    ensures
        r == spec_keys_distinct(pairs_view(ps@)),
{
    let mut i: usize = 0;
    while i < ps.len()
        invariant
            i <= ps@.len(),
            forall|a: int, b: int|
                0 <= a < b < ps@.len() && a < i ==> pairs_view(ps@)[a].0 != pairs_view(ps@)[b].0,
        decreases ps@.len() - i,
    {
        let mut j = i + 1;
        while j < ps.len()
            invariant
                i < ps@.len(),
                i < j <= ps@.len(),
                forall|b: int| i < b < j ==> pairs_view(ps@)[i as int].0 != pairs_view(ps@)[b].0,
            decreases ps@.len() - j,
        {
            if bytes_eq(&ps[i].0, &ps[j].0) {
                proof {
                    assert(pairs_view(ps@)[i as int].0 == pairs_view(ps@)[j as int].0);
                }
                return false;
            }
            proof {
                assert(pairs_view(ps@)[i as int].0 == ps@[i as int].0@);
                assert(pairs_view(ps@)[j as int].0 == ps@[j as int].0@);
            }
            j = j + 1;
        }
        i = i + 1;
    }
    true
}

/// Decodes one inbound host frame, or nothing when the frame is malformed.
/// A malformed frame is never fatal: the caller drops it and reads on.
pub fn parse_host_frame(s: &Vec<u8>) -> (r: Option<HostFrame>)
    ensures
        match r {
            None => spec_parse_host_frame(s@) is None,
            Some(f) => spec_parse_host_frame(s@) == Some(f@),
        },
{
    match parse_object_pairs(s) {
        None => None,
        Some((ps, end)) => {
            let rest = skip_ws(s, end);
            if rest < s.len() {
                return None;
            }
            if !keys_distinct(&ps) {
                return None;
            }
            let ktype = key_type_vec();
            match find_key(&ps, &ktype) {
                None => None,
                Some(ti) => {
                    let keep = tag_keep_alive_vec();
                    let tol = tag_to_listener_vec();
                    if bytes_eq(&ps[ti].1, &keep) {
                        Some(HostFrame::KeepAlive)
                    } else if bytes_eq(&ps[ti].1, &tol) {
                        let kto = key_to_vec();
                        let kmsg = key_msg_vec();
                        match (find_key(&ps, &kto), find_key(&ps, &kmsg)) {
                            (Some(a), Some(b)) => {
                                let to = ps[a].1.clone();
                                let msg = ps[b].1.clone();
                                proof {
                                    assert(to@ =~= ps@[a as int].1@);
                                    assert(msg@ =~= ps@[b as int].1@);
                                }
                                Some(HostFrame::ToListener { to, msg })
                            },
                            _ => None,
                        }
                    } else {
                        None
                    }
                },
            }
        },
    }
}

// ---------------------------------------------------------------------------
// Executable rendering
// ---------------------------------------------------------------------------

fn hex_digit(n: u8) -> (r: u8)
    requires
        n < 16,
    ensures
        r == spec_hex_digit(n as int),
{
    if n < 10 {
        48 + n
    } else {
        87 + n
    }
}

fn push_escape_byte(out: &mut Vec<u8>, b: u8)
    ensures
        final(out)@ == old(out)@ + spec_escape_byte(b),
{
    if b == 34 {
        out.push(92);
        out.push(34);
        proof {
            assert(out@ =~= old(out)@ + spec_escape_byte(b));
        }
    } else if b == 92 {
        out.push(92);
        out.push(92);
        proof {
            assert(out@ =~= old(out)@ + spec_escape_byte(b));
        }
    } else if b < 32 {
        out.push(92);
        out.push(117);
        out.push(48);
        out.push(48);
        out.push(hex_digit(b / 16));
        out.push(hex_digit(b % 16));
        proof {
            assert(out@ =~= old(out)@ + spec_escape_byte(b));
        }
    } else {
        out.push(b);
        proof {
            assert(out@ =~= old(out)@ + spec_escape_byte(b));
        }
    }
}

proof fn lemma_escape_snoc(t: Seq<u8>, b: u8)
    ensures
        spec_escape(t.push(b)) == spec_escape(t) + spec_escape_byte(b),
    decreases t.len(),
{
    assert(t.push(b).len() == t.len() + 1);
    if t.len() == 0 {
        assert(t.push(b)[0] == b);
        assert(t.push(b).drop_first() =~= Seq::<u8>::empty());
        assert(spec_escape(t.push(b)) == spec_escape_byte(b) + spec_escape(Seq::<u8>::empty()));
        assert(spec_escape_byte(b) + Seq::<u8>::empty() =~= spec_escape_byte(b));
        assert(Seq::<u8>::empty() + spec_escape_byte(b) =~= spec_escape_byte(b));
        assert(spec_escape(t) == Seq::<u8>::empty());
    } else {
        assert(t.push(b)[0] == t[0]);
        assert(t.push(b).drop_first() =~= t.drop_first().push(b));
        lemma_escape_snoc(t.drop_first(), b);
        assert(spec_escape(t.push(b)) == spec_escape_byte(t[0]) + spec_escape(
            t.drop_first().push(b),
        ));
        assert(spec_escape(t) == spec_escape_byte(t[0]) + spec_escape(t.drop_first()));
        assert(spec_escape_byte(t[0]) + (spec_escape(t.drop_first()) + spec_escape_byte(b)) =~= (
        spec_escape_byte(t[0]) + spec_escape(t.drop_first())) + spec_escape_byte(b));
    }
}

fn push_escaped(out: &mut Vec<u8>, s: &Vec<u8>)
    ensures
        final(out)@ == old(out)@ + spec_escape(s@),
{
    let mut i: usize = 0;
    proof {
        assert(s@.take(0) =~= Seq::<u8>::empty());
        assert(old(out)@ + Seq::<u8>::empty() =~= old(out)@);
    }
    while i < s.len()
        invariant
            i <= s@.len(),
            out@ == old(out)@ + spec_escape(s@.take(i as int)),
        decreases s@.len() - i,
    {
        let ghost before = out@;
        push_escape_byte(out, s[i]);
        proof {
            assert(s@.take(i as int + 1) =~= s@.take(i as int).push(s@[i as int]));
            lemma_escape_snoc(s@.take(i as int), s@[i as int]);
            assert(old(out)@ + (spec_escape(s@.take(i as int)) + spec_escape_byte(s@[i as int]))
                =~= (old(out)@ + spec_escape(s@.take(i as int))) + spec_escape_byte(s@[i as int]));
        }
        i = i + 1;
    }
    proof {
        assert(s@.take(s@.len() as int) =~= s@);
    }
}

/// Renders the frame the router sends to the host when listener `from` says
/// `msg`: `{"from":F,"msg":M}` with both strings escaped.
pub fn render_to_host(from: &Vec<u8>, msg: &Vec<u8>) -> (out: Vec<u8>)
    ensures
        out@ == spec_render_to_host(from@, msg@),
{
    let mut out: Vec<u8> = Vec::new();
    out.push(123);
    out.push(34);
    out.push(102);
    out.push(114);
    out.push(111);
    out.push(109);
    out.push(34);
    out.push(58);
    out.push(34);
    let ghost prefix = out@;
    proof {
        assert(prefix =~= seq![123u8] + seq![34u8] + key_from() + seq![34u8] + seq![58u8]
            + seq![34u8]);
    }
    push_escaped(&mut out, from);
    out.push(34);
    out.push(44);
    out.push(34);
    out.push(109);
    out.push(115);
    out.push(103);
    out.push(34);
    out.push(58);
    out.push(34);
    let ghost mid = out@;
    proof {
        assert(mid =~= prefix + spec_escape(from@) + seq![34u8] + seq![44u8] + seq![34u8]
            + key_msg() + seq![34u8] + seq![58u8] + seq![34u8]);
    }
    push_escaped(&mut out, msg);
    out.push(34);
    out.push(125);
    proof {
        assert(out@ =~= mid + spec_escape(msg@) + seq![34u8] + seq![125u8]);
        lemma_escape_plain(key_from());
        lemma_escape_plain(key_msg());
        assert(out@ =~= spec_render_to_host(from@, msg@));
    }
    out
}

/// Renders the canonical `ToListener` host frame,
/// `{"type":"ToListener","to":T,"msg":M}` with both strings escaped.
#[verifier::rlimit(60)]
pub fn render_to_listener(to: &Vec<u8>, msg: &Vec<u8>) -> (out: Vec<u8>)
    ensures
        out@ == spec_render_to_listener(to@, msg@),
{
    let mut out: Vec<u8> = Vec::new();
    out.push(123);
    out.push(34);
    out.push(116);
    out.push(121);
    out.push(112);
    out.push(101);
    out.push(34);
    out.push(58);
    out.push(34);
    out.push(84);
    out.push(111);
    out.push(76);
    out.push(105);
    out.push(115);
    out.push(116);
    out.push(101);
    out.push(110);
    out.push(101);
    out.push(114);
    out.push(34);
    out.push(44);
    out.push(34);
    out.push(116);
    out.push(111);
    out.push(34);
    out.push(58);
    out.push(34);
    let ghost prefix = out@;
    proof {
        assert(prefix =~= seq![123u8] + seq![34u8] + key_type() + seq![34u8] + seq![58u8]
            + seq![34u8] + tag_to_listener() + seq![34u8] + seq![44u8] + seq![34u8] + key_to()
            + seq![34u8] + seq![58u8] + seq![34u8]);
    }
    push_escaped(&mut out, to);
    out.push(34);
    out.push(44);
    out.push(34);
    out.push(109);
    out.push(115);
    out.push(103);
    out.push(34);
    out.push(58);
    out.push(34);
    let ghost mid = out@;
    proof {
        assert(mid =~= prefix + spec_escape(to@) + seq![34u8] + seq![44u8] + seq![34u8]
            + key_msg() + seq![34u8] + seq![58u8] + seq![34u8]);
    }
    push_escaped(&mut out, msg);
    out.push(34);
    out.push(125);
    proof {
        assert(out@ =~= mid + spec_escape(msg@) + seq![34u8] + seq![125u8]);
        lemma_escape_plain(key_type());
        lemma_escape_plain(tag_to_listener());
        lemma_escape_plain(key_to());
        lemma_escape_plain(key_msg());
        assert(out@ =~= spec_render_to_listener(to@, msg@));
    }
    out
}

/// Renders the canonical `KeepAlive` host frame, `{"type":"KeepAlive"}`.
pub fn render_keep_alive() -> (out: Vec<u8>)
    ensures
        out@ == spec_render_keep_alive(),
{
    let mut out: Vec<u8> = Vec::new();
    out.push(123);
    out.push(34);
    out.push(116);
    out.push(121);
    out.push(112);
    out.push(101);
    out.push(34);
    out.push(58);
    out.push(34);
    out.push(75);
    out.push(101);
    out.push(101);
    out.push(112);
    out.push(65);
    out.push(108);
    out.push(105);
    out.push(118);
    out.push(101);
    out.push(34);
    out.push(125);
    proof {
        lemma_escape_plain(key_type());
        lemma_escape_plain(tag_keep_alive());
        assert(out@ =~= spec_render_keep_alive());
    }
    out
}

// ---------------------------------------------------------------------------
// The rendering round trip
// ---------------------------------------------------------------------------

proof fn lemma_skip_ws_id(s: Seq<u8>)
    requires
        s.len() == 0 || !is_ws(s[0]),
    ensures
        spec_skip_ws(s) == s,
{
}

/// Parsing a string body undoes escaping, whatever the content.
proof fn lemma_parse_body_unescape(content: Seq<u8>, rest: Seq<u8>)
    ensures
        spec_parse_string_body(spec_escape(content) + seq![34u8] + rest) == Some((content, rest)),
    decreases content.len(),
{
    let s = spec_escape(content) + seq![34u8] + rest;
    if content.len() == 0 {
        assert(s =~= seq![34u8] + rest);
        assert(s[0] == 34);
        assert(s.drop_first() =~= rest);
        assert(content =~= Seq::<u8>::empty());
    } else {
        let b = content[0];
        let tail = content.drop_first();
        lemma_parse_body_unescape(tail, rest);
        let s2 = spec_escape(tail) + seq![34u8] + rest;
        assert(spec_escape(content) == spec_escape_byte(b) + spec_escape(tail));
        assert(s =~= spec_escape_byte(b) + s2);
        assert(seq![b] + tail =~= content);
        if b == 34 {
            assert(s[0] == 92);
            assert(s[1] == 34);
            assert(s.skip(2) =~= s2);
            assert(spec_parse_string_body(s) == Some((seq![34u8] + tail, rest)));
        } else if b == 92 {
            assert(s[0] == 92);
            assert(s[1] == 92);
            assert(s.skip(2) =~= s2);
            assert(spec_parse_string_body(s) == Some((seq![92u8] + tail, rest)));
        } else if b < 32 {
            let h1 = spec_hex_digit((b / 16) as int);
            let h0 = spec_hex_digit((b % 16) as int);
            assert(s[0] == 92);
            assert(s[1] == 117);
            assert(s[2] == 48);
            assert(s[3] == 48);
            assert(s[4] == h1);
            assert(s[5] == h0);
            assert(spec_hex_val(48) == Some(0u8));
            assert(b / 16 < 2);
            assert(spec_hex_val(h1) == Some((b / 16) as u8));
            assert(b % 16 < 16);
            assert(spec_hex_val(h0) == Some((b % 16) as u8));
            vstd::arithmetic::div_mod::lemma_fundamental_div_mod(b as int, 16);
            assert(spec_hex4(s[2], s[3], s[4], s[5]) == Some(b as int));
            assert(s.skip(6) =~= s2);
            assert(spec_parse_string_body(s) == Some((seq![b] + tail, rest)));
        } else {
            assert(s[0] == b);
            assert(s.drop_first() =~= s2);
            assert(spec_parse_string_body(s) == Some((seq![b] + tail, rest)));
        }
    }
}

/// Parsing a rendered string literal undoes quoting.
proof fn lemma_parse_quoted_unescape(content: Seq<u8>, rest: Seq<u8>)
    ensures
        spec_parse_quoted(spec_quoted(content) + rest) == Some((content, rest)),
{
    let s = spec_quoted(content) + rest;
    assert(s[0] == 34);
    assert(s.drop_first() =~= spec_escape(content) + seq![34u8] + rest);
    lemma_parse_body_unescape(content, rest);
}

/// A rendered final member, its closing brace included, parses back.
proof fn lemma_member_last(k: Seq<u8>, v: Seq<u8>, rest: Seq<u8>)
    ensures
        spec_parse_members(spec_quoted(k) + seq![58u8] + spec_quoted(v) + seq![125u8] + rest)
            == Some((seq![(k, v)], rest)),
{
    let s = spec_quoted(k) + seq![58u8] + spec_quoted(v) + seq![125u8] + rest;
    let r1 = seq![58u8] + (spec_quoted(v) + seq![125u8] + rest);
    assert(s =~= spec_quoted(k) + r1);
    lemma_parse_quoted_unescape(k, r1);
    assert(spec_parse_quoted(s) == Some((k, r1)));
    assert(r1[0] == 58);
    lemma_skip_ws_id(r1);
    let r3 = spec_quoted(v) + (seq![125u8] + rest);
    assert(r1.drop_first() =~= r3);
    assert(r3[0] == 34);
    lemma_skip_ws_id(r3);
    let r4 = seq![125u8] + rest;
    lemma_parse_quoted_unescape(v, r4);
    assert(spec_parse_quoted(r3) == Some((v, r4)));
    assert(r4[0] == 125);
    lemma_skip_ws_id(r4);
    assert(r4.drop_first() =~= rest);
    assert(spec_parse_members(s) == Some((seq![(k, v)], rest)));
}

/// A rendered member followed by a comma parses back and hands the rest on.
proof fn lemma_member_comma(k: Seq<u8>, v: Seq<u8>, tail: Seq<u8>)
    requires
        tail.len() > 0,
        !is_ws(tail[0]),
    ensures
        spec_parse_members(spec_quoted(k) + seq![58u8] + spec_quoted(v) + seq![44u8] + tail)
            == opt_prepend_pairs(seq![(k, v)], spec_parse_members(tail)),
{
    let s = spec_quoted(k) + seq![58u8] + spec_quoted(v) + seq![44u8] + tail;
    let r1 = seq![58u8] + (spec_quoted(v) + seq![44u8] + tail);
    assert(s =~= spec_quoted(k) + r1);
    lemma_parse_quoted_unescape(k, r1);
    assert(spec_parse_quoted(s) == Some((k, r1)));
    assert(r1[0] == 58);
    lemma_skip_ws_id(r1);
    let r3 = spec_quoted(v) + (seq![44u8] + tail);
    assert(r1.drop_first() =~= r3);
    assert(r3[0] == 34);
    lemma_skip_ws_id(r3);
    let r4 = seq![44u8] + tail;
    lemma_parse_quoted_unescape(v, r4);
    assert(spec_parse_quoted(r3) == Some((v, r4)));
    assert(r4[0] == 44);
    lemma_skip_ws_id(r4);
    assert(r4.drop_first() =~= tail);
    lemma_skip_ws_id(tail);
    match spec_parse_members(tail) {
        None => {
            assert(spec_parse_members(s) is None);
        },
        Some((ps, r7)) => {
            assert(spec_parse_members(s) == Some((seq![(k, v)] + ps, r7)));
        },
    }
}

/// Round trip: the canonical `KeepAlive` rendering parses back to it.
pub proof fn lemma_parse_render_keep_alive()
    ensures
        spec_parse_host_frame(spec_render_keep_alive()) == Some(SpecHostFrame::KeepAlive),
{
    let s = spec_render_keep_alive();
    assert(s[0] == 123);
    lemma_skip_ws_id(s);
    let u = spec_quoted(key_type()) + seq![58u8] + spec_quoted(tag_keep_alive()) + seq![125u8]
        + Seq::<u8>::empty();
    assert(s.drop_first() =~= u);
    assert(u[0] == 34);
    lemma_skip_ws_id(u);
    lemma_member_last(key_type(), tag_keep_alive(), Seq::<u8>::empty());
    let ps = seq![(key_type(), tag_keep_alive())];
    assert(spec_parse_object(s) == Some((ps, Seq::<u8>::empty())));
    lemma_skip_ws_id(Seq::<u8>::empty());
    assert(spec_keys_distinct(ps));
    assert(spec_lookup(ps, key_type()) == Some(tag_keep_alive()));
    assert(spec_interp_pairs(ps) == Some(SpecHostFrame::KeepAlive));
}

/// Round trip: the canonical `ToListener` rendering parses back to it, for
/// every target and payload.
#[verifier::rlimit(60)]
pub proof fn lemma_parse_render_to_listener(to: Seq<u8>, msg: Seq<u8>)
    ensures
        spec_parse_host_frame(spec_render_to_listener(to, msg)) == Some(
            SpecHostFrame::ToListener { to, msg },
        ),
{
    let s = spec_render_to_listener(to, msg);
    let t3 = spec_quoted(key_msg()) + seq![58u8] + spec_quoted(msg) + seq![125u8] + Seq::<
        u8,
    >::empty();
    let t2 = spec_quoted(key_to()) + seq![58u8] + spec_quoted(to) + seq![44u8] + t3;
    let t1 = spec_quoted(key_type()) + seq![58u8] + spec_quoted(tag_to_listener()) + seq![44u8]
        + t2;
    assert(s =~= seq![123u8] + t1);
    assert(s[0] == 123);
    lemma_skip_ws_id(s);
    assert(s.drop_first() =~= t1);
    assert(t1[0] == 34);
    lemma_skip_ws_id(t1);
    assert(t2[0] == 34);
    assert(t3[0] == 34);
    lemma_member_last(key_msg(), msg, Seq::<u8>::empty());
    lemma_member_comma(key_to(), to, t3);
    lemma_member_comma(key_type(), tag_to_listener(), t2);
    let p1 = (key_type(), tag_to_listener());
    let p2 = (key_to(), to);
    let p3 = (key_msg(), msg);
    let ps = seq![p1, p2, p3];
    assert(spec_parse_members(t3) == Some((seq![p3], Seq::<u8>::empty())));
    assert(spec_parse_members(t2) == Some((seq![p2] + seq![p3], Seq::<u8>::empty())));
    assert(spec_parse_members(t1) == Some((seq![p1] + (seq![p2] + seq![p3]), Seq::<u8>::empty())));
    assert(seq![p1] + (seq![p2] + seq![p3]) =~= ps);
    assert(spec_parse_object(s) == Some((ps, Seq::<u8>::empty())));
    lemma_skip_ws_id(Seq::<u8>::empty());
    assert(key_type().len() == 4);
    assert(key_to().len() == 2);
    assert(key_msg().len() == 3);
    assert(spec_keys_distinct(ps));
    assert(spec_lookup(ps, key_type()) == Some(tag_to_listener()));
    let ps2 = seq![p2, p3];
    let ps3 = seq![p3];
    assert(ps.drop_first() =~= ps2);
    assert(ps2.drop_first() =~= ps3);
    assert(key_type() != key_to());
    assert(key_type() != key_msg());
    assert(key_to() != key_msg());
    assert(spec_lookup(ps2, key_to()) == Some(to));
    assert(spec_lookup(ps, key_to()) == Some(to));
    assert(spec_lookup(ps3, key_msg()) == Some(msg));
    assert(spec_lookup(ps2, key_msg()) == Some(msg));
    assert(spec_lookup(ps, key_msg()) == Some(msg));
    assert(tag_to_listener().len() == 10);
    assert(tag_keep_alive().len() == 9);
    assert(spec_interp_pairs(ps) == Some(SpecHostFrame::ToListener { to, msg }));
}

} // verus!
