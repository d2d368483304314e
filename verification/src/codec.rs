//! Envelope codec: the textual wire format of the chat core.
//!
//! A frame is a byte string holding one object in a JSON-style notation:
//! `{"messageType":tag,...}` where the payload fields are `"dataArray"` (an
//! array of strings, used by the `users` kind) and `"data"` (a string, used
//! by the `register` and `message` kinds).  For the `message` kind the
//! `data` string is itself an encoded chat payload `{"from":...,
//! "message":...}`.  Strings carry arbitrary bytes: quote, backslash and
//! control bytes travel escaped.
//!
//! `enc_env` is the mathematical definition of the canonical encoding and
//! `sp_decode` the mathematical definition of decoding; `encode` and
//! `decode` are proved to compute exactly those functions.  Decoding is
//! deliberately more liberal than the canonical encoding: unknown fields
//! are skipped, absent or `null` optional fields are read as empty, the
//! first occurrence of a field wins, and an unknown kind tag decodes to the
//! `Other` variant so that new kinds do not break parsing.

use vstd::prelude::*;

verus! {

// ---------------------------------------------------------------------------
// Wire bytes
// ---------------------------------------------------------------------------

pub const QUOTE: u8 = 0x22;
pub const BSLASH: u8 = 0x5c;
pub const LBRACE: u8 = 0x7b;
pub const RBRACE: u8 = 0x7d;
pub const LBRACKET: u8 = 0x5b;
pub const RBRACKET: u8 = 0x5d;
pub const COLON: u8 = 0x3a;
pub const COMMA: u8 = 0x2c;

/// The `"messageType"` field name.
pub open spec fn mt_key() -> Seq<u8> {
    seq![0x6d, 0x65, 0x73, 0x73, 0x61, 0x67, 0x65, 0x54, 0x79, 0x70, 0x65]
}

/// The `"dataArray"` field name.
pub open spec fn da_key() -> Seq<u8> {
    seq![0x64, 0x61, 0x74, 0x61, 0x41, 0x72, 0x72, 0x61, 0x79]
}

/// The `"data"` field name.
pub open spec fn data_key() -> Seq<u8> {
    seq![0x64, 0x61, 0x74, 0x61]
}

/// The `"from"` field name of the chat payload.
pub open spec fn from_key() -> Seq<u8> {
    seq![0x66, 0x72, 0x6f, 0x6d]
}

/// The bytes of `message`: both the third kind tag and the text field name
/// of the chat payload.
pub open spec fn message_bytes() -> Seq<u8> {
    seq![0x6d, 0x65, 0x73, 0x73, 0x61, 0x67, 0x65]
}

/// The `users` kind tag.
pub open spec fn users_tag() -> Seq<u8> {
    seq![0x75, 0x73, 0x65, 0x72, 0x73]
}

/// The `register` kind tag.
pub open spec fn register_tag() -> Seq<u8> {
    seq![0x72, 0x65, 0x67, 0x69, 0x73, 0x74, 0x65, 0x72]
}

/// The tag the canonical encoding gives to the `Other` variant.
pub open spec fn unknown_tag() -> Seq<u8> {
    seq![0x75, 0x6e, 0x6b, 0x6e, 0x6f, 0x77, 0x6e]
}

// ---------------------------------------------------------------------------
// Data model
// ---------------------------------------------------------------------------

/// The envelope kinds the reconciler understands.
#[derive(Clone, Copy, Debug, PartialEq, Eq, Structural)]
pub enum MsgTypes {
    Users,
    Register,
    Message,
}

/// One chat entry: who wrote it and its free text.
#[derive(Clone, Debug, PartialEq, Eq)]
pub struct ChatMessage {
    pub from: Vec<u8>,
    pub message: Vec<u8>,
}

/// Mathematical model of a `ChatMessage`.
#[verifier::ext_equal]
pub struct ChatMessageView {
    pub from: Seq<u8>,
    pub message: Seq<u8>,
}

impl View for ChatMessage {
    type V = ChatMessageView;

    open spec fn view(&self) -> ChatMessageView {
        ChatMessageView { from: self.from@, message: self.message@ }
    }
}

/// The typed wire message.  `Register` carries a display name, `Users` a
/// full roster snapshot, `Message` a chat payload; `Other` stands for any
/// well-shaped frame whose kind tag names no known kind.
#[derive(Clone, Debug, PartialEq, Eq)]
pub enum Envelope {
    Register(Vec<u8>),
    Users(Vec<Vec<u8>>),
    Message(ChatMessage),
    Other,
}

/// Mathematical model of an `Envelope`.
pub enum EnvelopeView {
    Register(Seq<u8>),
    Users(Seq<Seq<u8>>),
    Message(ChatMessageView),
    Other,
}

/// The views of a sequence of byte strings.
pub open spec fn bytes_seq_view(s: Seq<Vec<u8>>) -> Seq<Seq<u8>> {
    s.map_values(|v: Vec<u8>| v@)
}

impl View for Envelope {
    type V = EnvelopeView;

    open spec fn view(&self) -> EnvelopeView {
        match self {
            Envelope::Register(d) => EnvelopeView::Register(d@),
            Envelope::Users(xs) => EnvelopeView::Users(bytes_seq_view(xs@)),
            Envelope::Message(m) => EnvelopeView::Message(m@),
            Envelope::Other => EnvelopeView::Other,
        }
    }
}

impl Envelope {
    /// The kind of this envelope, or `None` for an unrecognized kind.
    pub fn kind(&self) -> (k: Option<MsgTypes>)
        ensures
            k == match self@ {
                EnvelopeView::Register(_) => Some(MsgTypes::Register),
                EnvelopeView::Users(_) => Some(MsgTypes::Users),
                EnvelopeView::Message(_) => Some(MsgTypes::Message),
                EnvelopeView::Other => None::<MsgTypes>,
            },
    {
        match self {
            Envelope::Register(_) => Some(MsgTypes::Register),
            Envelope::Users(_) => Some(MsgTypes::Users),
            Envelope::Message(_) => Some(MsgTypes::Message),
            Envelope::Other => None,
        }
    }
}

/// Why a frame was rejected: `MalformedEnvelope` when the frame is not a
/// well-shaped envelope at all, `MalformedPayload` when the envelope is a
/// `message` whose inner payload does not decode to a chat payload.
#[derive(Clone, Copy, Debug, PartialEq, Eq, Structural)]
pub enum DecodeError {
    MalformedEnvelope,
    MalformedPayload,
}

// ---------------------------------------------------------------------------
// Canonical encoding (specification)
// ---------------------------------------------------------------------------

/// The hexadecimal digit of a value below sixteen.
pub open spec fn hex_digit(v: u8) -> u8
    recommends
        v < 16,
{
    if v < 10 {
        (0x30 + v) as u8
    } else {
        (0x57 + v) as u8
    }
}

/// The escape sequence of one byte inside an encoded string: quote and
/// backslash get a backslash escape, control bytes a `\u00XX` escape, and
/// every other byte stands for itself.
pub open spec fn esc_byte(b: u8) -> Seq<u8> {
    if b == QUOTE {
        seq![BSLASH, QUOTE]
    } else if b == BSLASH {
        seq![BSLASH, BSLASH]
    } else if b < 0x20 {
        seq![BSLASH, 0x75, 0x30, 0x30, hex_digit(b / 16), hex_digit(b % 16)]
    } else {
        seq![b]
    }
}

/// The escaped body of an encoded string.
pub open spec fn esc_seq(s: Seq<u8>) -> Seq<u8>
    decreases s.len(),
{
    if s.len() == 0 {
        Seq::empty()
    } else {
        esc_byte(s[0]) + esc_seq(s.drop_first())
    }
}

/// A quoted, escaped string.
pub open spec fn enc_string(s: Seq<u8>) -> Seq<u8> {
    seq![QUOTE] + esc_seq(s) + seq![QUOTE]
}

/// The elements of an array after its first: `,` string, ended by `]`.
pub open spec fn enc_arrtail(xs: Seq<Seq<u8>>) -> Seq<u8>
    decreases xs.len(),
{
    if xs.len() == 0 {
        seq![RBRACKET]
    } else {
        seq![COMMA] + enc_string(xs[0]) + enc_arrtail(xs.drop_first())
    }
}

/// An array of strings.
pub open spec fn enc_array(xs: Seq<Seq<u8>>) -> Seq<u8> {
    if xs.len() == 0 {
        seq![LBRACKET, RBRACKET]
    } else {
        seq![LBRACKET] + enc_string(xs[0]) + enc_arrtail(xs.drop_first())
    }
}

/// The canonical encoding of a chat payload.
pub open spec fn enc_chat(m: ChatMessageView) -> Seq<u8> {
    seq![LBRACE] + enc_string(from_key()) + seq![COLON] + enc_string(m.from) + seq![COMMA]
        + enc_string(message_bytes()) + seq![COLON] + enc_string(m.message) + seq![RBRACE]
}

/// The canonical encoding of an envelope.
pub open spec fn enc_env(e: EnvelopeView) -> Seq<u8> {
    match e {
        EnvelopeView::Register(d) => seq![LBRACE] + enc_string(mt_key()) + seq![COLON]
            + enc_string(register_tag()) + seq![COMMA] + enc_string(data_key()) + seq![COLON]
            + enc_string(d) + seq![RBRACE],
        EnvelopeView::Users(xs) => seq![LBRACE] + enc_string(mt_key()) + seq![COLON]
            + enc_string(users_tag()) + seq![COMMA] + enc_string(da_key()) + seq![COLON]
            + enc_array(xs) + seq![RBRACE],
        EnvelopeView::Message(m) => seq![LBRACE] + enc_string(mt_key()) + seq![COLON]
            + enc_string(message_bytes()) + seq![COMMA] + enc_string(data_key()) + seq![COLON]
            + enc_string(enc_chat(m)) + seq![RBRACE],
        EnvelopeView::Other => seq![LBRACE] + enc_string(mt_key()) + seq![COLON]
            + enc_string(unknown_tag()) + seq![RBRACE],
    }
}

// ---------------------------------------------------------------------------
// Executable encoder
// ---------------------------------------------------------------------------

/// Escaping distributes over appending one byte.
proof fn lemma_esc_seq_snoc(s: Seq<u8>, b: u8)
    ensures
        esc_seq(s.push(b)) == esc_seq(s) + esc_byte(b),
    decreases s.len(),
{
    if s.len() == 0 {
        assert(s.push(b).drop_first() =~= Seq::<u8>::empty());
        assert(s.push(b)[0] == b);
        assert(esc_seq(Seq::<u8>::empty()) == Seq::<u8>::empty());
        assert(esc_seq(s.push(b)) == esc_byte(b) + esc_seq(Seq::<u8>::empty()));
        assert(esc_seq(s.push(b)) =~= esc_byte(b));
        assert(esc_seq(s) + esc_byte(b) =~= esc_byte(b));
    } else {
        assert(s.push(b).drop_first() =~= s.drop_first().push(b));
        lemma_esc_seq_snoc(s.drop_first(), b);
        assert(esc_seq(s.push(b)) =~= esc_seq(s) + esc_byte(b));
    }
}

/// The hexadecimal digit of a value below sixteen.
fn hex_digit_x(v: u8) -> (r: u8)
    requires
        v < 16,
    ensures
        r == hex_digit(v),
{
    if v < 10 {
        0x30 + v
    } else {
        0x57 + v
    }
}

/// Appends the escaped body of `s` to `out`.
fn push_escaped(out: &mut Vec<u8>, s: &Vec<u8>)
    ensures
        final(out)@ == old(out)@ + esc_seq(s@),
{
    let ghost out0: Seq<u8> = out@;
    let mut k: usize = 0;
    while k < s.len()
        invariant
            k <= s@.len(),
            out@ == out0 + esc_seq(s@.take(k as int)),
        decreases s@.len() - k,
    {
        let b = s[k];
        if b == QUOTE {
            out.push(BSLASH);
            out.push(QUOTE);
        } else if b == BSLASH {
            out.push(BSLASH);
            out.push(BSLASH);
        } else if b < 0x20 {
            out.push(BSLASH);
            out.push(0x75);
            out.push(0x30);
            out.push(0x30);
            out.push(hex_digit_x(b / 16));
            out.push(hex_digit_x(b % 16));
        } else {
            out.push(b);
        }
        proof {
            lemma_esc_seq_snoc(s@.take(k as int), b);
            assert(s@.take(k + 1) =~= s@.take(k as int).push(b));
            assert(out@ =~= out0 + esc_seq(s@.take(k + 1)));
        }
        k = k + 1;
    }
    proof {
        assert(s@.take(s@.len() as int) =~= s@);
    }
}

/// Appends the quoted, escaped form of `s` to `out`.
fn push_string(out: &mut Vec<u8>, s: &Vec<u8>)
    ensures
        final(out)@ == old(out)@ + enc_string(s@),
{
    out.push(QUOTE);
    push_escaped(out, s);
    out.push(QUOTE);
    proof {
        assert(out@ =~= old(out)@ + enc_string(s@));
    }
}

/// Appends the encoded array of the strings in `xs` to `out`.
fn push_array(out: &mut Vec<u8>, xs: &Vec<Vec<u8>>)
    ensures
        final(out)@ == old(out)@ + enc_array(bytes_seq_view(xs@)),
{
    let ghost out0: Seq<u8> = out@;
    let ghost vs: Seq<Seq<u8>> = bytes_seq_view(xs@);
    out.push(LBRACKET);
    if xs.len() == 0 {
        out.push(RBRACKET);
        proof {
            assert(out@ =~= out0 + enc_array(vs));
        }
        return ;
    }
    push_string(out, &xs[0]);
    let mut k: usize = 1;
    while k < xs.len()
        invariant
            1 <= k <= xs@.len(),
            vs == bytes_seq_view(xs@),
            vs.len() == xs@.len(),
            out@ + enc_arrtail(vs.skip(k as int)) == out0 + enc_array(vs),
        decreases xs@.len() - k,
    {
        out.push(COMMA);
        push_string(out, &xs[k]);
        proof {
            assert(vs.skip(k as int)[0] == xs@[k as int]@);
            assert(vs.skip(k as int).drop_first() =~= vs.skip(k + 1));
            assert(out@ + enc_arrtail(vs.skip(k + 1)) =~= out0 + enc_array(vs));
        }
        k = k + 1;
    }
    out.push(RBRACKET);
    proof {
        assert(vs.skip(xs@.len() as int) =~= Seq::<Seq<u8>>::empty());
        assert(out@ =~= out0 + enc_array(vs));
    }
}

/// The `"messageType"` field name as a byte string.
fn mt_key_vec() -> (r: Vec<u8>)
    ensures
        r@ == mt_key(),
{
    let mut v: Vec<u8> = Vec::new();
    v.push(0x6d);
    v.push(0x65);
    v.push(0x73);
    v.push(0x73);
    v.push(0x61);
    v.push(0x67);
    v.push(0x65);
    v.push(0x54);
    v.push(0x79);
    v.push(0x70);
    v.push(0x65);
    proof {
        assert(v@ =~= mt_key());
    }
    v
}

/// The `"dataArray"` field name as a byte string.
fn da_key_vec() -> (r: Vec<u8>)
    ensures
        r@ == da_key(),
{
    let mut v: Vec<u8> = Vec::new();
    v.push(0x64);
    v.push(0x61);
    v.push(0x74);
    v.push(0x61);
    v.push(0x41);
    v.push(0x72);
    v.push(0x72);
    v.push(0x61);
    v.push(0x79);
    proof {
        assert(v@ =~= da_key());
    }
    v
}

/// The `"data"` field name as a byte string.
fn data_key_vec() -> (r: Vec<u8>)
    ensures
        r@ == data_key(),
{
    let mut v: Vec<u8> = Vec::new();
    v.push(0x64);
    v.push(0x61);
    v.push(0x74);
    v.push(0x61);
    proof {
        assert(v@ =~= data_key());
    }
    v
}

/// The `"from"` field name as a byte string.
fn from_key_vec() -> (r: Vec<u8>)
    ensures
        r@ == from_key(),
{
    let mut v: Vec<u8> = Vec::new();
    v.push(0x66);
    v.push(0x72);
    v.push(0x6f);
    v.push(0x6d);
    proof {
        assert(v@ =~= from_key());
    }
    v
}

/// The bytes of `message` as a byte string.
fn message_bytes_vec() -> (r: Vec<u8>)
    ensures
        r@ == message_bytes(),
{
    let mut v: Vec<u8> = Vec::new();
    v.push(0x6d);
    v.push(0x65);
    v.push(0x73);
    v.push(0x73);
    v.push(0x61);
    v.push(0x67);
    v.push(0x65);
    proof {
        assert(v@ =~= message_bytes());
    }
    v
}

/// The `users` tag as a byte string.
fn users_tag_vec() -> (r: Vec<u8>)
    ensures
        r@ == users_tag(),
{
    let mut v: Vec<u8> = Vec::new();
    v.push(0x75);
    v.push(0x73);
    v.push(0x65);
    v.push(0x72);
    v.push(0x73);
    proof {
        assert(v@ =~= users_tag());
    }
    v
}

/// The `register` tag as a byte string.
fn register_tag_vec() -> (r: Vec<u8>)
    ensures
        r@ == register_tag(),
{
    let mut v: Vec<u8> = Vec::new();
    v.push(0x72);
    v.push(0x65);
    v.push(0x67);
    v.push(0x69);
    v.push(0x73);
    v.push(0x74);
    v.push(0x65);
    v.push(0x72);
    proof {
        assert(v@ =~= register_tag());
    }
    v
}

/// The `unknown` tag as a byte string.
fn unknown_tag_vec() -> (r: Vec<u8>)
    ensures
        r@ == unknown_tag(),
{
    let mut v: Vec<u8> = Vec::new();
    v.push(0x75);
    v.push(0x6e);
    v.push(0x6b);
    v.push(0x6e);
    v.push(0x6f);
    v.push(0x77);
    v.push(0x6e);
    proof {
        assert(v@ =~= unknown_tag());
    }
    v
}

/// Appends the canonical encoding of the chat payload `m` to `out`.
fn push_chat(out: &mut Vec<u8>, m: &ChatMessage)
    ensures
        final(out)@ == old(out)@ + enc_chat(m@),
{
    out.push(LBRACE);
    let fk = from_key_vec();
    push_string(out, &fk);
    out.push(COLON);
    push_string(out, &m.from);
    out.push(COMMA);
    let mk = message_bytes_vec();
    push_string(out, &mk);
    out.push(COLON);
    push_string(out, &m.message);
    out.push(RBRACE);
    proof {
        assert(out@ =~= old(out)@ + enc_chat(m@));
    }
}

/// Encodes a chat payload on its own, as it travels inside the `data`
/// field of a `message` envelope.
pub fn encode_chat(m: &ChatMessage) -> (r: Vec<u8>)
    ensures
        r@ == enc_chat(m@),
{
    let mut out: Vec<u8> = Vec::new();
    push_chat(&mut out, m);
    proof {
        assert(out@ =~= enc_chat(m@));
    }
    out
}

/// Encodes an envelope into its canonical frame.  Encoding succeeds for
/// every constructible envelope; the result is exactly `enc_env(e@)`.
pub fn encode(e: &Envelope) -> (r: Vec<u8>)
    ensures
        r@ == enc_env(e@),
{
    let mut out: Vec<u8> = Vec::new();
    out.push(LBRACE);
    let mtk = mt_key_vec();
    push_string(&mut out, &mtk);
    out.push(COLON);
    match e {
        Envelope::Register(d) => {
            let tag = register_tag_vec();
            push_string(&mut out, &tag);
            out.push(COMMA);
            let dk = data_key_vec();
            push_string(&mut out, &dk);
            out.push(COLON);
            push_string(&mut out, d);
            out.push(RBRACE);
            proof {
                assert(out@ =~= enc_env(e@));
            }
        },
        Envelope::Users(xs) => {
            let tag = users_tag_vec();
            push_string(&mut out, &tag);
            out.push(COMMA);
            let dak = da_key_vec();
            push_string(&mut out, &dak);
            out.push(COLON);
            push_array(&mut out, xs);
            out.push(RBRACE);
            proof {
                assert(out@ =~= enc_env(e@));
            }
        },
        Envelope::Message(m) => {
            let tag = message_bytes_vec();
            push_string(&mut out, &tag);
            out.push(COMMA);
            let dk = data_key_vec();
            push_string(&mut out, &dk);
            out.push(COLON);
            let inner = encode_chat(m);
            push_string(&mut out, &inner);
            out.push(RBRACE);
            proof {
                assert(out@ =~= enc_env(e@));
            }
        },
        Envelope::Other => {
            let tag = unknown_tag_vec();
            push_string(&mut out, &tag);
            out.push(RBRACE);
            proof {
                assert(out@ =~= enc_env(e@));
            }
        },
    }
    out
}

// ---------------------------------------------------------------------------
// Decoding (specification)
// ---------------------------------------------------------------------------

/// Spec-level value of one object field: the wire format only ever carries
/// strings, arrays of strings, and `null`.
pub enum JsonValue {
    Str(Seq<u8>),
    Arr(Seq<Seq<u8>>),
    Null,
}

/// Executable value of one object field.
#[derive(Debug)]
pub enum FieldValue {
    Str(Vec<u8>),
    Arr(Vec<Vec<u8>>),
    Null,
}

impl View for FieldValue {
    type V = JsonValue;

    open spec fn view(&self) -> JsonValue {
        match self {
            FieldValue::Str(s) => JsonValue::Str(s@),
            FieldValue::Arr(a) => JsonValue::Arr(bytes_seq_view(a@)),
            FieldValue::Null => JsonValue::Null,
        }
    }
}

/// Whether `d` is a hexadecimal digit byte.
pub open spec fn is_hex(d: u8) -> bool {
    (0x30 <= d && d <= 0x39) || (0x61 <= d && d <= 0x66) || (0x41 <= d && d <= 0x46)
}

/// The value of a hexadecimal digit byte.
pub open spec fn hex_val(d: u8) -> u8
    recommends
        is_hex(d),
{
    if 0x30 <= d && d <= 0x39 {
        (d - 0x30) as u8
    } else if 0x61 <= d && d <= 0x66 {
        (d - 0x61 + 10) as u8
    } else if 0x41 <= d && d <= 0x46 {
        (d - 0x41 + 10) as u8
    } else {
        0
    }
}

/// The byte named by two hexadecimal digits.
pub open spec fn hex_byte(hi: u8, lo: u8) -> u8
    recommends
        is_hex(hi),
        is_hex(lo),
{
    (16 * hex_val(hi) + hex_val(lo)) as u8
}

/// The control byte named by a single-letter escape, if any: `\n`, `\t`,
/// `\r`, `\b`, `\f`.
pub open spec fn ctl_escape(e: u8) -> Option<u8> {
    if e == 0x6e {
        Some(0x0a)
    } else if e == 0x74 {
        Some(0x09)
    } else if e == 0x72 {
        Some(0x0d)
    } else if e == 0x62 {
        Some(0x08)
    } else if e == 0x66 {
        Some(0x0c)
    } else {
        None
    }
}

/// Parses the body of a string after its opening quote: the decoded bytes
/// and the input left after the closing quote.  Accepts the escapes `\"`,
/// `\\`, `\/`, the five single-letter control escapes, and `\u00XX`; a raw
/// control byte, an unknown escape or a missing closing quote fails.
pub open spec fn sp_strtail(t: Seq<u8>) -> Option<(Seq<u8>, Seq<u8>)>
    decreases t.len(),
{
    if t.len() == 0 {
        None
    } else if t[0] == QUOTE {
        Some((Seq::empty(), t.drop_first()))
    } else if t[0] == BSLASH {
        if t.len() < 2 {
            None
        } else if t[1] == QUOTE || t[1] == BSLASH || t[1] == 0x2f {
            match sp_strtail(t.skip(2)) {
                Some(p) => Some((seq![t[1]] + p.0, p.1)),
                None => None,
            }
        } else if ctl_escape(t[1]) is Some {
            match sp_strtail(t.skip(2)) {
                Some(p) => Some((seq![ctl_escape(t[1])->Some_0] + p.0, p.1)),
                None => None,
            }
        } else if t[1] == 0x75 {
            if t.len() < 6 {
                None
            } else if t[2] == 0x30 && t[3] == 0x30 && is_hex(t[4]) && is_hex(t[5]) {
                match sp_strtail(t.skip(6)) {
                    Some(p) => Some((seq![hex_byte(t[4], t[5])] + p.0, p.1)),
                    None => None,
                }
            } else {
                None
            }
        } else {
            None
        }
    } else if t[0] < 0x20 {
        None
    } else {
        match sp_strtail(t.drop_first()) {
            Some(p) => Some((seq![t[0]] + p.0, p.1)),
            None => None,
        }
    }
}

/// Parses a quoted string.
pub open spec fn sp_string(t: Seq<u8>) -> Option<(Seq<u8>, Seq<u8>)> {
    if t.len() > 0 && t[0] == QUOTE {
        sp_strtail(t.drop_first())
    } else {
        None
    }
}

/// A successful string-body parse consumes at least the closing quote.
pub proof fn lemma_strtail_shrinks(t: Seq<u8>)
    ensures
        sp_strtail(t) matches Some(p) ==> p.1.len() < t.len(),
    decreases t.len(),
{
    if t.len() == 0 {
    } else if t[0] == QUOTE {
    } else if t[0] == BSLASH {
        if t.len() >= 2 {
            lemma_strtail_shrinks(t.skip(2));
            if t.len() >= 6 {
                lemma_strtail_shrinks(t.skip(6));
            }
        }
    } else {
        lemma_strtail_shrinks(t.drop_first());
    }
}

/// A successful string parse consumes at least its two quotes.
pub proof fn lemma_string_shrinks(t: Seq<u8>)
    ensures
        sp_string(t) matches Some(p) ==> p.1.len() + 2 <= t.len(),
{
    if t.len() > 0 && t[0] == QUOTE {
        lemma_strtail_shrinks(t.drop_first());
    }
}

/// Parses the elements of an array after its first: `,` string, repeated,
/// ended by `]`.
pub open spec fn sp_arrelems(t: Seq<u8>) -> Option<(Seq<Seq<u8>>, Seq<u8>)>
    decreases t.len(),
    via sp_arrelems_dec
{
    if t.len() == 0 {
        None
    } else if t[0] == RBRACKET {
        Some((Seq::empty(), t.drop_first()))
    } else if t[0] == COMMA {
        match sp_string(t.drop_first()) {
            Some(p) => match sp_arrelems(p.1) {
                Some(q) => Some((seq![p.0] + q.0, q.1)),
                None => None,
            },
            None => None,
        }
    } else {
        None
    }
}

#[via_fn]
proof fn sp_arrelems_dec(t: Seq<u8>) {
    if t.len() > 0 && t[0] == COMMA {
        lemma_string_shrinks(t.drop_first());
    }
}

/// Parses an array of strings.
pub open spec fn sp_array(t: Seq<u8>) -> Option<(Seq<Seq<u8>>, Seq<u8>)> {
    if t.len() >= 2 && t[0] == LBRACKET && t[1] == RBRACKET {
        Some((Seq::empty(), t.skip(2)))
    } else if t.len() >= 1 && t[0] == LBRACKET {
        match sp_string(t.drop_first()) {
            Some(p) => match sp_arrelems(p.1) {
                Some(q) => Some((seq![p.0] + q.0, q.1)),
                None => None,
            },
            None => None,
        }
    } else {
        None
    }
}

/// Parses one field value: a string, an array of strings, or `null`.
pub open spec fn sp_value(t: Seq<u8>) -> Option<(JsonValue, Seq<u8>)> {
    if t.len() == 0 {
        None
    } else if t[0] == QUOTE {
        match sp_string(t) {
            Some(p) => Some((JsonValue::Str(p.0), p.1)),
            None => None,
        }
    } else if t[0] == LBRACKET {
        match sp_array(t) {
            Some(p) => Some((JsonValue::Arr(p.0), p.1)),
            None => None,
        }
    } else if t.len() >= 4 && t[0] == 0x6e && t[1] == 0x75 && t[2] == 0x6c && t[3] == 0x6c {
        Some((JsonValue::Null, t.skip(4)))
    } else {
        None
    }
}

/// Parses one `key:value` pair.
pub open spec fn sp_pair(t: Seq<u8>) -> Option<((Seq<u8>, JsonValue), Seq<u8>)> {
    match sp_string(t) {
        Some(p) => if p.1.len() >= 1 && p.1[0] == COLON {
            match sp_value(p.1.drop_first()) {
                Some(q) => Some(((p.0, q.0), q.1)),
                None => None,
            }
        } else {
            None
        },
        None => None,
    }
}

/// A successful array-elements parse consumes at least the closing bracket.
pub proof fn lemma_arrelems_shrinks(t: Seq<u8>)
    ensures
        sp_arrelems(t) matches Some(p) ==> p.1.len() < t.len(),
    decreases t.len(),
{
    if t.len() > 0 && t[0] == COMMA {
        lemma_string_shrinks(t.drop_first());
        match sp_string(t.drop_first()) {
            Some(p) => {
                lemma_arrelems_shrinks(p.1);
            },
            None => {},
        }
    }
}

/// A successful value parse consumes at least one byte.
pub proof fn lemma_value_shrinks(t: Seq<u8>)
    ensures
        sp_value(t) matches Some(p) ==> p.1.len() < t.len(),
{
    if t.len() > 0 {
        if t[0] == QUOTE {
            lemma_string_shrinks(t);
        } else if t[0] == LBRACKET {
            if !(t.len() >= 2 && t[1] == RBRACKET) {
                lemma_string_shrinks(t.drop_first());
                match sp_string(t.drop_first()) {
                    Some(p) => {
                        lemma_arrelems_shrinks(p.1);
                    },
                    None => {},
                }
            }
        }
    }
}

/// A successful pair parse consumes at least one byte.
pub proof fn lemma_pair_shrinks(t: Seq<u8>)
    ensures
        sp_pair(t) matches Some(p) ==> p.1.len() < t.len(),
{
    lemma_string_shrinks(t);
    match sp_string(t) {
        Some(p) => {
            if p.1.len() >= 1 && p.1[0] == COLON {
                lemma_value_shrinks(p.1.drop_first());
            }
        },
        None => {},
    }
}

/// Parses the members of an object after its first pair: `,` pair,
/// repeated, ended by `}`.
pub open spec fn sp_members(t: Seq<u8>) -> Option<(Seq<(Seq<u8>, JsonValue)>, Seq<u8>)>
    decreases t.len(),
    via sp_members_dec
{
    if t.len() == 0 {
        None
    } else if t[0] == RBRACE {
        Some((Seq::empty(), t.drop_first()))
    } else if t[0] == COMMA {
        match sp_pair(t.drop_first()) {
            Some(p) => match sp_members(p.1) {
                Some(q) => Some((seq![p.0] + q.0, q.1)),
                None => None,
            },
            None => None,
        }
    } else {
        None
    }
}

#[via_fn]
proof fn sp_members_dec(t: Seq<u8>) {
    if t.len() > 0 && t[0] == COMMA {
        lemma_pair_shrinks(t.drop_first());
    }
}

/// Parses an object into its sequence of `key:value` pairs.
pub open spec fn sp_object(t: Seq<u8>) -> Option<(Seq<(Seq<u8>, JsonValue)>, Seq<u8>)> {
    if t.len() >= 2 && t[0] == LBRACE && t[1] == RBRACE {
        Some((Seq::empty(), t.skip(2)))
    } else if t.len() >= 1 && t[0] == LBRACE {
        match sp_pair(t.drop_first()) {
            Some(p) => match sp_members(p.1) {
                Some(q) => Some((seq![p.0] + q.0, q.1)),
                None => None,
            },
            None => None,
        }
    } else {
        None
    }
}

/// The value of the first pair carrying `k`, if any: when a frame repeats
/// a field, the first occurrence wins.
pub open spec fn lookup(ps: Seq<(Seq<u8>, JsonValue)>, k: Seq<u8>) -> Option<JsonValue>
    decreases ps.len(),
{
    if ps.len() == 0 {
        None
    } else if ps[0].0 == k {
        Some(ps[0].1)
    } else {
        lookup(ps.drop_first(), k)
    }
}

/// Decoding of a chat payload: a whole object whose `from` and `message`
/// fields are both present as strings.  Unknown fields are tolerated.
pub open spec fn sp_decode_chat(t: Seq<u8>) -> Option<ChatMessageView> {
    match sp_object(t) {
        Some(p) => if p.1.len() != 0 {
            None
        } else {
            match (lookup(p.0, from_key()), lookup(p.0, message_bytes())) {
                (Some(JsonValue::Str(f)), Some(JsonValue::Str(m))) => Some(
                    ChatMessageView { from: f, message: m },
                ),
                _ => None,
            }
        },
        None => None,
    }
}

/// Decoding of a frame.  The frame must be one whole object whose
/// `messageType` field is a string; the payload field of the named kind is
/// read, tolerating an absent or `null` optional field as empty; any other
/// kind tag decodes to `Other`.  A `message` whose `data` is absent,
/// `null`, or not decodable as a chat payload fails with
/// `MalformedPayload`; every other failure is `MalformedEnvelope`.
pub open spec fn sp_decode(t: Seq<u8>) -> Result<EnvelopeView, DecodeError> {
    match sp_object(t) {
        None => Err(DecodeError::MalformedEnvelope),
        Some(p) => if p.1.len() != 0 {
            Err(DecodeError::MalformedEnvelope)
        } else {
            match lookup(p.0, mt_key()) {
                Some(JsonValue::Str(tag)) => if tag == users_tag() {
                    match lookup(p.0, da_key()) {
                        None => Ok(EnvelopeView::Users(Seq::empty())),
                        Some(JsonValue::Null) => Ok(EnvelopeView::Users(Seq::empty())),
                        Some(JsonValue::Arr(xs)) => Ok(EnvelopeView::Users(xs)),
                        Some(JsonValue::Str(_)) => Err(DecodeError::MalformedEnvelope),
                    }
                } else if tag == register_tag() {
                    match lookup(p.0, data_key()) {
                        None => Ok(EnvelopeView::Register(Seq::empty())),
                        Some(JsonValue::Null) => Ok(EnvelopeView::Register(Seq::empty())),
                        Some(JsonValue::Str(d)) => Ok(EnvelopeView::Register(d)),
                        Some(JsonValue::Arr(_)) => Err(DecodeError::MalformedEnvelope),
                    }
                } else if tag == message_bytes() {
                    match lookup(p.0, data_key()) {
                        Some(JsonValue::Str(d)) => match sp_decode_chat(d) {
                            Some(m) => Ok(EnvelopeView::Message(m)),
                            None => Err(DecodeError::MalformedPayload),
                        },
                        None => Err(DecodeError::MalformedPayload),
                        Some(JsonValue::Null) => Err(DecodeError::MalformedPayload),
                        Some(JsonValue::Arr(_)) => Err(DecodeError::MalformedEnvelope),
                    }
                } else {
                    Ok(EnvelopeView::Other)
                },
                _ => Err(DecodeError::MalformedEnvelope),
            }
        },
    }
}

// ---------------------------------------------------------------------------
// Executable decoder
// ---------------------------------------------------------------------------

/// Whether two byte strings hold the same bytes.
pub(crate) fn bytes_eq(a: &Vec<u8>, b: &Vec<u8>) -> (r: bool)
    ensures
        r == (a@ == b@),
{
    if a.len() != b.len() {
        return false;
    }
    let mut k: usize = 0;
    while k < a.len()
        invariant
            k <= a@.len(),
            a@.len() == b@.len(),
            forall|j: int| 0 <= j < k ==> a@[j] == b@[j],
        decreases a@.len() - k,
    {
        if a[k] != b[k] {
            return false;
        }
        k = k + 1;
    }
    proof {
        assert(a@ =~= b@);
    }
    true
}

/// A copy of a byte string.
pub(crate) fn clone_bytes(v: &Vec<u8>) -> (r: Vec<u8>)
    ensures
        r@ == v@,
{
    let mut out: Vec<u8> = Vec::new();
    let mut k: usize = 0;
    while k < v.len()
        invariant
            k <= v@.len(),
            out@ == v@.take(k as int),
        decreases v@.len() - k,
    {
        out.push(v[k]);
        proof {
            assert(v@.take(k + 1) =~= v@.take(k as int).push(v@[k as int]));
        }
        k = k + 1;
    }
    proof {
        assert(v@.take(v@.len() as int) =~= v@);
    }
    out
}

/// A copy of a sequence of byte strings.
fn clone_bytes_vec(v: &Vec<Vec<u8>>) -> (r: Vec<Vec<u8>>)
    ensures
        bytes_seq_view(r@) == bytes_seq_view(v@),
{
    let mut out: Vec<Vec<u8>> = Vec::new();
    let mut k: usize = 0;
    while k < v.len()
        invariant
            k <= v@.len(),
            bytes_seq_view(out@) == bytes_seq_view(v@).take(k as int),
        decreases v@.len() - k,
    {
        let ghost out0: Seq<Vec<u8>> = out@;
        let e = clone_bytes(&v[k]);
        out.push(e);
        proof {
            assert(bytes_seq_view(out0.push(e)) =~= bytes_seq_view(out0).push(e@));
            assert(bytes_seq_view(v@)[k as int] == v@[k as int]@);
            assert(bytes_seq_view(v@).take(k + 1) =~= bytes_seq_view(v@).take(k as int).push(
                bytes_seq_view(v@)[k as int],
            ));
        }
        k = k + 1;
    }
    proof {
        assert(bytes_seq_view(v@).take(v@.len() as int) =~= bytes_seq_view(v@));
    }
    out
}

/// Whether `d` is a hexadecimal digit byte.
fn is_hex_x(d: u8) -> (r: bool)
    ensures
        r == is_hex(d),
{
    (0x30 <= d && d <= 0x39) || (0x61 <= d && d <= 0x66) || (0x41 <= d && d <= 0x46)
}

/// The byte named by two hexadecimal digits.
fn hex_byte_x(hi: u8, lo: u8) -> (r: u8)
    requires
        is_hex(hi),
        is_hex(lo),
    ensures
        r == hex_byte(hi, lo),
{
    let hv: u8 = if 0x30 <= hi && hi <= 0x39 {
        hi - 0x30
    } else if 0x61 <= hi && hi <= 0x66 {
        hi - 0x61 + 10
    } else {
        hi - 0x41 + 10
    };
    let lv: u8 = if 0x30 <= lo && lo <= 0x39 {
        lo - 0x30
    } else if 0x61 <= lo && lo <= 0x66 {
        lo - 0x61 + 10
    } else {
        lo - 0x41 + 10
    };
    16 * hv + lv
}

/// How a parsed prefix extends a string-body parse of the rest.
pub open spec fn str_cont(prefix: Seq<u8>, o: Option<(Seq<u8>, Seq<u8>)>) -> Option<
    (Seq<u8>, Seq<u8>),
> {
    match o {
        Some(p) => Some((prefix + p.0, p.1)),
        None => None,
    }
}

/// One decoded byte moves from the unparsed rest to the parsed prefix.
proof fn lemma_str_step(base: Seq<u8>, pre: Seq<u8>, c: u8, rest: Seq<u8>, rest2: Seq<u8>)
    requires
        sp_strtail(base) == str_cont(pre, sp_strtail(rest)),
        sp_strtail(rest) == str_cont(seq![c], sp_strtail(rest2)),
    ensures
        sp_strtail(base) == str_cont(pre.push(c), sp_strtail(rest2)),
{
    match sp_strtail(rest2) {
        Some(p) => {
            assert(pre + (seq![c] + p.0) =~= pre.push(c) + p.0);
        },
        None => {},
    }
}

/// Parses a quoted string starting at index `i`, returning the decoded
/// bytes and the index just past the closing quote.
#[verifier::loop_isolation(false)]
fn parse_string(t: &Vec<u8>, i: usize) -> (r: Option<(Vec<u8>, usize)>)
    requires
        i <= t@.len(),
    ensures
        match r {
            Some(p) => i < p.1 <= t@.len() && sp_string(t@.skip(i as int)) == Some(
                (p.0@, t@.skip(p.1 as int)),
            ),
            None => sp_string(t@.skip(i as int)) is None,
        },
{
    if i >= t.len() || t[i] != QUOTE {
        return None;
    }
    proof {
        assert(t@.skip(i as int)[0] == t@[i as int]);
        assert(t@.skip(i as int).drop_first() =~= t@.skip(i + 1));
        assert(sp_string(t@.skip(i as int)) == sp_strtail(t@.skip(i + 1)));
    }
    let mut k: usize = i + 1;
    let mut out: Vec<u8> = Vec::new();
    while k < t.len() && t[k] != QUOTE
        invariant
            i + 1 <= k <= t@.len(),
            sp_strtail(t@.skip(i + 1)) == str_cont(out@, sp_strtail(t@.skip(k as int))),
        decreases t@.len() - k,
    {
        let ghost base: Seq<u8> = t@.skip(i + 1);
        let ghost rest0: Seq<u8> = t@.skip(k as int);
        let ghost out0: Seq<u8> = out@;
        let b = t[k];
        proof {
            assert(rest0[0] == b);
            assert(rest0.drop_first() =~= t@.skip(k + 1));
        }
        if b == BSLASH {
            if t.len() - k < 2 {
                return None;
            }
            let e = t[k + 1];
            proof {
                assert(rest0[1] == e);
                assert(rest0.skip(2) =~= t@.skip(k + 2));
            }
            if e == QUOTE || e == BSLASH || e == 0x2f {
                out.push(e);
                proof {
                    assert(sp_strtail(rest0) == str_cont(seq![e], sp_strtail(t@.skip(k + 2))));
                    lemma_str_step(base, out0, e, rest0, t@.skip(k + 2));
                }
                k = k + 2;
            } else if e == 0x6e {
                out.push(0x0a);
                proof {
                    assert(sp_strtail(rest0) == str_cont(seq![0x0a], sp_strtail(t@.skip(k + 2))));
                    lemma_str_step(base, out0, 0x0a, rest0, t@.skip(k + 2));
                }
                k = k + 2;
            } else if e == 0x74 {
                out.push(0x09);
                proof {
                    assert(sp_strtail(rest0) == str_cont(seq![0x09], sp_strtail(t@.skip(k + 2))));
                    lemma_str_step(base, out0, 0x09, rest0, t@.skip(k + 2));
                }
                k = k + 2;
            } else if e == 0x72 {
                out.push(0x0d);
                proof {
                    assert(sp_strtail(rest0) == str_cont(seq![0x0d], sp_strtail(t@.skip(k + 2))));
                    lemma_str_step(base, out0, 0x0d, rest0, t@.skip(k + 2));
                }
                k = k + 2;
            } else if e == 0x62 {
                out.push(0x08);
                proof {
                    assert(sp_strtail(rest0) == str_cont(seq![0x08], sp_strtail(t@.skip(k + 2))));
                    lemma_str_step(base, out0, 0x08, rest0, t@.skip(k + 2));
                }
                k = k + 2;
            } else if e == 0x66 {
                out.push(0x0c);
                proof {
                    assert(sp_strtail(rest0) == str_cont(seq![0x0c], sp_strtail(t@.skip(k + 2))));
                    lemma_str_step(base, out0, 0x0c, rest0, t@.skip(k + 2));
                }
                k = k + 2;
            } else if e == 0x75 {
                if t.len() - k < 6 {
                    proof {
                        assert(rest0.len() < 6);
                    }
                    return None;
                }
                let d2 = t[k + 2];
                let d3 = t[k + 3];
                let d4 = t[k + 4];
                let d5 = t[k + 5];
                proof {
                    assert(rest0[2] == d2 && rest0[3] == d3 && rest0[4] == d4 && rest0[5] == d5);
                    assert(rest0.skip(6) =~= t@.skip(k + 6));
                }
                if d2 == 0x30 && d3 == 0x30 && is_hex_x(d4) && is_hex_x(d5) {
                    let c = hex_byte_x(d4, d5);
                    out.push(c);
                    proof {
                        assert(sp_strtail(rest0) == str_cont(seq![c], sp_strtail(t@.skip(k + 6))));
                        lemma_str_step(base, out0, c, rest0, t@.skip(k + 6));
                    }
                    k = k + 6;
                } else {
                    return None;
                }
            } else {
                return None;
            }
        } else if b < 0x20 {
            return None;
        } else {
            out.push(b);
            proof {
                assert(sp_strtail(rest0) == str_cont(seq![b], sp_strtail(t@.skip(k + 1))));
                lemma_str_step(base, out0, b, rest0, t@.skip(k + 1));
            }
            k = k + 1;
        }
    }
    if k >= t.len() {
        return None;
    }
    proof {
        assert(t@.skip(k as int)[0] == QUOTE);
        assert(t@.skip(k as int).drop_first() =~= t@.skip(k + 1));
        assert(sp_strtail(t@.skip(k as int)) == Some(
            (Seq::<u8>::empty(), t@.skip(k + 1)),
        ));
        assert(out@ + Seq::<u8>::empty() =~= out@);
    }
    Some((out, k + 1))
}

/// How parsed elements extend an array-elements parse of the rest.
pub open spec fn arr_cont(prefix: Seq<Seq<u8>>, o: Option<(Seq<Seq<u8>>, Seq<u8>)>) -> Option<
    (Seq<Seq<u8>>, Seq<u8>),
> {
    match o {
        Some(p) => Some((prefix + p.0, p.1)),
        None => None,
    }
}

/// One parsed element moves from the unparsed rest to the parsed prefix.
proof fn lemma_arr_cont_compose(
    pre: Seq<Seq<u8>>,
    s: Seq<u8>,
    o: Option<(Seq<Seq<u8>>, Seq<u8>)>,
)
    ensures
        arr_cont(pre, arr_cont(seq![s], o)) == arr_cont(pre.push(s), o),
{
    match o {
        Some(p) => {
            assert(pre + (seq![s] + p.0) =~= pre.push(s) + p.0);
        },
        None => {},
    }
}

/// Parses an array of strings starting at index `i`.
#[verifier::loop_isolation(false)]
fn parse_array(t: &Vec<u8>, i: usize) -> (r: Option<(Vec<Vec<u8>>, usize)>)
    requires
        i <= t@.len(),
    ensures
        match r {
            Some(p) => i < p.1 <= t@.len() && sp_array(t@.skip(i as int)) == Some(
                (bytes_seq_view(p.0@), t@.skip(p.1 as int)),
            ),
            None => sp_array(t@.skip(i as int)) is None,
        },
{
    if i >= t.len() || t[i] != LBRACKET {
        return None;
    }
    proof {
        assert(t@.skip(i as int)[0] == LBRACKET);
        assert(t@.skip(i as int).drop_first() =~= t@.skip(i + 1));
    }
    if i + 1 < t.len() && t[i + 1] == RBRACKET {
        proof {
            assert(t@.skip(i as int)[1] == RBRACKET);
            assert(t@.skip(i as int).skip(2) =~= t@.skip(i + 2));
            assert(bytes_seq_view(Seq::<Vec<u8>>::empty()) =~= Seq::<Seq<u8>>::empty());
        }
        let out: Vec<Vec<u8>> = Vec::new();
        return Some((out, i + 2));
    }
    let first = parse_string(t, i + 1);
    match first {
        None => {
            return None;
        },
        Some((s0, j0)) => {
            let mut out: Vec<Vec<u8>> = Vec::new();
            out.push(s0);
            let mut k: usize = j0;
            proof {
                assert(bytes_seq_view(out@) =~= seq![out@[0]@]);
                assert(sp_array(t@.skip(i as int)) == arr_cont(
                    bytes_seq_view(out@),
                    sp_arrelems(t@.skip(k as int)),
                ));
            }
            while k < t.len()
                invariant
                    j0 <= k <= t@.len(),
                    sp_array(t@.skip(i as int)) == arr_cont(
                        bytes_seq_view(out@),
                        sp_arrelems(t@.skip(k as int)),
                    ),
                decreases t@.len() - k,
            {
                let b = t[k];
                proof {
                    assert(t@.skip(k as int)[0] == b);
                    assert(t@.skip(k as int).drop_first() =~= t@.skip(k + 1));
                }
                if b == RBRACKET {
                    proof {
                        assert(bytes_seq_view(out@) + Seq::<Seq<u8>>::empty() =~= bytes_seq_view(
                            out@,
                        ));
                    }
                    return Some((out, k + 1));
                }
                if b != COMMA {
                    return None;
                }
                match parse_string(t, k + 1) {
                    None => {
                        return None;
                    },
                    Some((s, j)) => {
                        let ghost out0: Seq<Vec<u8>> = out@;
                        out.push(s);
                        proof {
                            assert(sp_arrelems(t@.skip(k as int)) == arr_cont(
                                seq![s@],
                                sp_arrelems(t@.skip(j as int)),
                            ));
                            lemma_arr_cont_compose(
                                bytes_seq_view(out0),
                                s@,
                                sp_arrelems(t@.skip(j as int)),
                            );
                            assert(bytes_seq_view(out@) =~= bytes_seq_view(out0).push(s@));
                        }
                        k = j;
                    },
                }
            }
            None
        },
    }
}

/// Parses one field value starting at index `i`.
fn parse_value(t: &Vec<u8>, i: usize) -> (r: Option<(FieldValue, usize)>)
    requires
        i <= t@.len(),
    ensures
        match r {
            Some(p) => i < p.1 <= t@.len() && sp_value(t@.skip(i as int)) == Some(
                (p.0@, t@.skip(p.1 as int)),
            ),
            None => sp_value(t@.skip(i as int)) is None,
        },
{
    if i >= t.len() {
        return None;
    }
    let b = t[i];
    proof {
        assert(t@.skip(i as int)[0] == b);
    }
    if b == QUOTE {
        match parse_string(t, i) {
            Some((s, j)) => Some((FieldValue::Str(s), j)),
            None => None,
        }
    } else if b == LBRACKET {
        match parse_array(t, i) {
            Some((a, j)) => Some((FieldValue::Arr(a), j)),
            None => None,
        }
    } else if b == 0x6e {
        if t.len() - i < 4 {
            return None;
        }
        let c1 = t[i + 1];
        let c2 = t[i + 2];
        let c3 = t[i + 3];
        proof {
            assert(t@.skip(i as int)[1] == c1);
            assert(t@.skip(i as int)[2] == c2);
            assert(t@.skip(i as int)[3] == c3);
            assert(t@.skip(i as int).skip(4) =~= t@.skip(i + 4));
        }
        if c1 == 0x75 && c2 == 0x6c && c3 == 0x6c {
            Some((FieldValue::Null, i + 4))
        } else {
            None
        }
    } else {
        None
    }
}

/// Parses one `key:value` pair starting at index `i`.
fn parse_pair(t: &Vec<u8>, i: usize) -> (r: Option<(Vec<u8>, FieldValue, usize)>)
    requires
        i <= t@.len(),
    ensures
        match r {
            Some(p) => i < p.2 <= t@.len() && sp_pair(t@.skip(i as int)) == Some(
                ((p.0@, p.1@), t@.skip(p.2 as int)),
            ),
            None => sp_pair(t@.skip(i as int)) is None,
        },
{
    match parse_string(t, i) {
        None => None,
        Some((key, j)) => {
            if j >= t.len() || t[j] != COLON {
                proof {
                    if j < t@.len() {
                        assert(t@.skip(j as int)[0] == t@[j as int]);
                    }
                }
                return None;
            }
            proof {
                assert(t@.skip(j as int)[0] == COLON);
                assert(t@.skip(j as int).drop_first() =~= t@.skip(j + 1));
            }
            match parse_value(t, j + 1) {
                None => None,
                Some((v, j2)) => Some((key, v, j2)),
            }
        },
    }
}

/// The spec-level pair a parsed pair stands for.
pub open spec fn pair_view(p: (Vec<u8>, FieldValue)) -> (Seq<u8>, JsonValue) {
    (p.0@, p.1@)
}

/// The spec-level pairs a parsed pair sequence stands for.
pub open spec fn pairs_view(s: Seq<(Vec<u8>, FieldValue)>) -> Seq<(Seq<u8>, JsonValue)> {
    s.map_values(|p: (Vec<u8>, FieldValue)| pair_view(p))
}

/// How parsed pairs extend a members parse of the rest.
pub open spec fn obj_cont(
    prefix: Seq<(Seq<u8>, JsonValue)>,
    o: Option<(Seq<(Seq<u8>, JsonValue)>, Seq<u8>)>,
) -> Option<(Seq<(Seq<u8>, JsonValue)>, Seq<u8>)> {
    match o {
        Some(p) => Some((prefix + p.0, p.1)),
        None => None,
    }
}

/// One parsed pair moves from the unparsed rest to the parsed prefix.
proof fn lemma_obj_cont_compose(
    pre: Seq<(Seq<u8>, JsonValue)>,
    p: (Seq<u8>, JsonValue),
    o: Option<(Seq<(Seq<u8>, JsonValue)>, Seq<u8>)>,
)
    ensures
        obj_cont(pre, obj_cont(seq![p], o)) == obj_cont(pre.push(p), o),
{
    match o {
        Some(q) => {
            assert(pre + (seq![p] + q.0) =~= pre.push(p) + q.0);
        },
        None => {},
    }
}

/// Parses an object starting at index `i` into its pairs.
#[verifier::loop_isolation(false)]
fn parse_object(t: &Vec<u8>, i: usize) -> (r: Option<(Vec<(Vec<u8>, FieldValue)>, usize)>)
    requires
        i <= t@.len(),
    ensures
        match r {
            Some(p) => i < p.1 <= t@.len() && sp_object(t@.skip(i as int)) == Some(
                (pairs_view(p.0@), t@.skip(p.1 as int)),
            ),
            None => sp_object(t@.skip(i as int)) is None,
        },
{
    if i >= t.len() || t[i] != LBRACE {
        return None;
    }
    proof {
        assert(t@.skip(i as int)[0] == LBRACE);
        assert(t@.skip(i as int).drop_first() =~= t@.skip(i + 1));
    }
    if i + 1 < t.len() && t[i + 1] == RBRACE {
        proof {
            assert(t@.skip(i as int)[1] == RBRACE);
            assert(t@.skip(i as int).skip(2) =~= t@.skip(i + 2));
            assert(pairs_view(Seq::<(Vec<u8>, FieldValue)>::empty()) =~= Seq::<
                (Seq<u8>, JsonValue),
            >::empty());
        }
        let out: Vec<(Vec<u8>, FieldValue)> = Vec::new();
        return Some((out, i + 2));
    }
    match parse_pair(t, i + 1) {
        None => {
            return None;
        },
        Some((key0, v0, j0)) => {
            let mut out: Vec<(Vec<u8>, FieldValue)> = Vec::new();
            out.push((key0, v0));
            let mut k: usize = j0;
            proof {
                assert(pairs_view(out@) =~= seq![pair_view(out@[0])]);
                assert(sp_object(t@.skip(i as int)) == obj_cont(
                    pairs_view(out@),
                    sp_members(t@.skip(k as int)),
                ));
            }
            while k < t.len()
                invariant
                    j0 <= k <= t@.len(),
                    sp_object(t@.skip(i as int)) == obj_cont(
                        pairs_view(out@),
                        sp_members(t@.skip(k as int)),
                    ),
                decreases t@.len() - k,
            {
                let b = t[k];
                proof {
                    assert(t@.skip(k as int)[0] == b);
                    assert(t@.skip(k as int).drop_first() =~= t@.skip(k + 1));
                }
                if b == RBRACE {
                    proof {
                        assert(pairs_view(out@) + Seq::<(Seq<u8>, JsonValue)>::empty()
                            =~= pairs_view(out@));
                    }
                    return Some((out, k + 1));
                }
                if b != COMMA {
                    return None;
                }
                match parse_pair(t, k + 1) {
                    None => {
                        return None;
                    },
                    Some((key, v, j)) => {
                        let ghost out0: Seq<(Vec<u8>, FieldValue)> = out@;
                        let ghost pv: (Seq<u8>, JsonValue) = (key@, v@);
                        out.push((key, v));
                        proof {
                            assert(sp_members(t@.skip(k as int)) == obj_cont(
                                seq![pv],
                                sp_members(t@.skip(j as int)),
                            ));
                            lemma_obj_cont_compose(
                                pairs_view(out0),
                                pv,
                                sp_members(t@.skip(j as int)),
                            );
                            assert(pairs_view(out@) =~= pairs_view(out0).push(pv));
                        }
                        k = j;
                    },
                }
            }
            None
        },
    }
}

/// Finds the first pair carrying `key`, as `lookup` does.
#[verifier::loop_isolation(false)]
fn find_field(ps: &Vec<(Vec<u8>, FieldValue)>, key: &Vec<u8>) -> (r: Option<usize>)
    ensures
        match r {
            Some(ix) => ix < ps@.len() && lookup(pairs_view(ps@), key@) == Some(
                ps@[ix as int].1@,
            ),
            None => lookup(pairs_view(ps@), key@) is None,
        },
{
    let mut k: usize = 0;
    proof {
        assert(pairs_view(ps@).skip(0) =~= pairs_view(ps@));
    }
    while k < ps.len()
        invariant
            k <= ps@.len(),
            lookup(pairs_view(ps@), key@) == lookup(pairs_view(ps@).skip(k as int), key@),
        decreases ps@.len() - k,
    {
        let p = &ps[k];
        let hit = bytes_eq(&p.0, key);
        proof {
            assert(pairs_view(ps@).skip(k as int)[0] == pairs_view(ps@)[k as int]);
            assert(pairs_view(ps@)[k as int] == pair_view(ps@[k as int]));
            assert(pairs_view(ps@).skip(k as int).drop_first() =~= pairs_view(ps@).skip(k + 1));
        }
        if hit {
            return Some(k);
        }
        k = k + 1;
    }
    proof {
        assert(pairs_view(ps@).skip(ps@.len() as int) =~= Seq::<(Seq<u8>, JsonValue)>::empty());
    }
    None
}

/// Decodes a chat payload: the whole input must be one object whose
/// `from` and `message` fields are strings.
pub fn decode_chat(t: &Vec<u8>) -> (r: Option<ChatMessage>)
    ensures
        match r {
            Some(m) => sp_decode_chat(t@) == Some(m@),
            None => sp_decode_chat(t@) is None,
        },
{
    proof {
        assert(t@.skip(0) =~= t@);
    }
    match parse_object(t, 0) {
        None => None,
        Some((ps, j)) => {
            if j != t.len() {
                proof {
                    assert(t@.skip(j as int).len() != 0);
                }
                return None;
            }
            proof {
                assert(t@.skip(j as int).len() == 0);
            }
            let fk = from_key_vec();
            let mk = message_bytes_vec();
            let fi = find_field(&ps, &fk);
            let mi = find_field(&ps, &mk);
            match (fi, mi) {
                (Some(a), Some(b)) => {
                    let pa = &ps[a];
                    let f: Vec<u8> = match &pa.1 {
                        FieldValue::Str(s) => clone_bytes(s),
                        _ => {
                            return None;
                        },
                    };
                    let pb = &ps[b];
                    let m: Vec<u8> = match &pb.1 {
                        FieldValue::Str(s) => clone_bytes(s),
                        _ => {
                            return None;
                        },
                    };
                    Some(ChatMessage { from: f, message: m })
                },
                _ => None,
            }
        },
    }
}

/// The decode result seen at the level of views.
pub open spec fn res_view(r: Result<Envelope, DecodeError>) -> Result<EnvelopeView, DecodeError> {
    match r {
        Ok(e) => Ok(e@),
        Err(k) => Err(k),
    }
}

/// Decodes a frame into an envelope, computing exactly `sp_decode`: the
/// typed envelope for a well-shaped frame, `MalformedEnvelope` when the
/// frame is not one whole well-shaped object with a string `messageType`
/// or a payload field has the wrong shape, and `MalformedPayload` when a
/// `message` envelope's inner payload is absent or no chat payload.
pub fn decode(t: &Vec<u8>) -> (r: Result<Envelope, DecodeError>)
    ensures
        res_view(r) == sp_decode(t@),
{
    proof {
        assert(t@.skip(0) =~= t@);
    }
    let parsed = parse_object(t, 0);
    match parsed {
        None => Err(DecodeError::MalformedEnvelope),
        Some((ps, j)) => {
            if j != t.len() {
                proof {
                    assert(t@.skip(j as int).len() != 0);
                }
                return Err(DecodeError::MalformedEnvelope);
            }
            proof {
                assert(t@.skip(j as int).len() == 0);
            }
            let mtk = mt_key_vec();
            match find_field(&ps, &mtk) {
                None => Err(DecodeError::MalformedEnvelope),
                Some(ix) => {
                    let pt = &ps[ix];
                    let tag: Vec<u8> = match &pt.1 {
                        FieldValue::Str(s) => clone_bytes(s),
                        _ => {
                            return Err(DecodeError::MalformedEnvelope);
                        },
                    };
                    let utag = users_tag_vec();
                    let rtag = register_tag_vec();
                    let mtag = message_bytes_vec();
                    if bytes_eq(&tag, &utag) {
                        let dak = da_key_vec();
                        match find_field(&ps, &dak) {
                            None => {
                                proof {
                                    assert(bytes_seq_view(Seq::<Vec<u8>>::empty()) =~= Seq::<
                                        Seq<u8>,
                                    >::empty());
                                }
                                Ok(Envelope::Users(Vec::new()))
                            },
                            Some(ix2) => {
                                let pd = &ps[ix2];
                                match &pd.1 {
                                    FieldValue::Null => {
                                        proof {
                                            assert(bytes_seq_view(Seq::<Vec<u8>>::empty()) =~= Seq::<
                                                Seq<u8>,
                                            >::empty());
                                        }
                                        Ok(Envelope::Users(Vec::new()))
                                    },
                                    FieldValue::Arr(a) => Ok(Envelope::Users(clone_bytes_vec(a))),
                                    FieldValue::Str(_) => Err(DecodeError::MalformedEnvelope),
                                }
                            },
                        }
                    } else if bytes_eq(&tag, &rtag) {
                        let dk = data_key_vec();
                        match find_field(&ps, &dk) {
                            None => Ok(Envelope::Register(Vec::new())),
                            Some(ix2) => {
                                let pd = &ps[ix2];
                                match &pd.1 {
                                    FieldValue::Null => Ok(Envelope::Register(Vec::new())),
                                    FieldValue::Str(s) => Ok(Envelope::Register(clone_bytes(s))),
                                    FieldValue::Arr(_) => Err(DecodeError::MalformedEnvelope),
                                }
                            },
                        }
                    } else if bytes_eq(&tag, &mtag) {
                        let dk = data_key_vec();
                        match find_field(&ps, &dk) {
                            None => Err(DecodeError::MalformedPayload),
                            Some(ix2) => {
                                let pd = &ps[ix2];
                                match &pd.1 {
                                    FieldValue::Str(s) => match decode_chat(s) {
                                        Some(m) => Ok(Envelope::Message(m)),
                                        None => Err(DecodeError::MalformedPayload),
                                    },
                                    FieldValue::Null => Err(DecodeError::MalformedPayload),
                                    FieldValue::Arr(_) => Err(DecodeError::MalformedEnvelope),
                                }
                            },
                        }
                    } else {
                        Ok(Envelope::Other)
                    }
                },
            }
        },
    }
}

// ---------------------------------------------------------------------------
// Round trip
// ---------------------------------------------------------------------------

/// A value below sixteen survives the trip through its hexadecimal digit.
proof fn lemma_hex_digit_val(v: u8)
    requires
        v < 16,
    ensures
        is_hex(hex_digit(v)),
        hex_val(hex_digit(v)) == v,
{
}

/// The escaped body of `s`, followed by a closing quote, parses back to
/// `s`.
proof fn lemma_strtail_esc(s: Seq<u8>, rest: Seq<u8>)
    ensures
        sp_strtail(esc_seq(s) + seq![QUOTE] + rest) == Some((s, rest)),
    decreases s.len(),
{
    let t = esc_seq(s) + seq![QUOTE] + rest;
    if s.len() == 0 {
        assert(t =~= seq![QUOTE] + rest);
        assert(t[0] == QUOTE);
        assert(t.drop_first() =~= rest);
    } else {
        let b = s[0];
        let s2 = s.drop_first();
        let t2 = esc_seq(s2) + seq![QUOTE] + rest;
        lemma_strtail_esc(s2, rest);
        assert(esc_seq(s) == esc_byte(b) + esc_seq(s2));
        assert(t =~= esc_byte(b) + t2);
        if b == QUOTE {
            assert(t[0] == BSLASH && t[1] == QUOTE);
            assert(t.skip(2) =~= t2);
            assert(seq![t[1]] + s2 =~= s);
        } else if b == BSLASH {
            assert(t[0] == BSLASH && t[1] == BSLASH);
            assert(t.skip(2) =~= t2);
            assert(seq![t[1]] + s2 =~= s);
        } else if b < 0x20 {
            lemma_hex_digit_val(b / 16);
            lemma_hex_digit_val(b % 16);
            assert(t[0] == BSLASH && t[1] == 0x75 && t[2] == 0x30 && t[3] == 0x30);
            assert(t[4] == hex_digit(b / 16) && t[5] == hex_digit(b % 16));
            assert(ctl_escape(0x75) is None);
            assert(t.len() >= 6);
            vstd::arithmetic::div_mod::lemma_fundamental_div_mod(b as int, 16);
            assert(hex_byte(t[4], t[5]) == b);
            assert(t.skip(6) =~= t2);
            assert(seq![b] + s2 =~= s);
        } else {
            assert(t[0] == b);
            assert(t.drop_first() =~= t2);
            assert(seq![b] + s2 =~= s);
        }
    }
}

/// An encoded string parses back to its bytes.
proof fn lemma_string_enc(s: Seq<u8>, rest: Seq<u8>)
    ensures
        sp_string(enc_string(s) + rest) == Some((s, rest)),
{
    let t = enc_string(s) + rest;
    assert(t[0] == QUOTE);
    assert(t.drop_first() =~= esc_seq(s) + seq![QUOTE] + rest);
    lemma_strtail_esc(s, rest);
}

/// Array elements encoded after the first parse back to their strings.
proof fn lemma_arrelems_enc(xs: Seq<Seq<u8>>, rest: Seq<u8>)
    ensures
        sp_arrelems(enc_arrtail(xs) + rest) == Some((xs, rest)),
    decreases xs.len(),
{
    let t = enc_arrtail(xs) + rest;
    if xs.len() == 0 {
        assert(t =~= seq![RBRACKET] + rest);
        assert(t[0] == RBRACKET);
        assert(t.drop_first() =~= rest);
        assert(Seq::<Seq<u8>>::empty() =~= xs);
    } else {
        let x0 = xs[0];
        let xs2 = xs.drop_first();
        lemma_arrelems_enc(xs2, rest);
        assert(enc_arrtail(xs) == seq![COMMA] + enc_string(x0) + enc_arrtail(xs2));
        assert(t[0] == COMMA);
        assert(t.drop_first() =~= enc_string(x0) + (enc_arrtail(xs2) + rest));
        lemma_string_enc(x0, enc_arrtail(xs2) + rest);
        assert(seq![x0] + xs2 =~= xs);
    }
}

/// An encoded array parses back to its strings.
proof fn lemma_array_enc(xs: Seq<Seq<u8>>, rest: Seq<u8>)
    ensures
        sp_array(enc_array(xs) + rest) == Some((xs, rest)),
{
    let t = enc_array(xs) + rest;
    if xs.len() == 0 {
        assert(t =~= seq![LBRACKET, RBRACKET] + rest);
        assert(t.len() >= 2);
        assert(t[0] == LBRACKET && t[1] == RBRACKET);
        assert(t.skip(2) =~= rest);
    } else {
        let x0 = xs[0];
        let xs2 = xs.drop_first();
        assert(enc_array(xs) == seq![LBRACKET] + enc_string(x0) + enc_arrtail(xs2));
        assert(t[0] == LBRACKET);
        assert(t[1] == QUOTE);
        assert(t.drop_first() =~= enc_string(x0) + (enc_arrtail(xs2) + rest));
        lemma_string_enc(x0, enc_arrtail(xs2) + rest);
        lemma_arrelems_enc(xs2, rest);
        assert(seq![x0] + xs2 =~= xs);
    }
}

/// The canonical encoding of one field value.
spec fn enc_value(v: JsonValue) -> Seq<u8> {
    match v {
        JsonValue::Str(s) => enc_string(s),
        JsonValue::Arr(xs) => enc_array(xs),
        JsonValue::Null => seq![0x6e, 0x75, 0x6c, 0x6c],
    }
}

/// An encoded field value parses back to itself.
proof fn lemma_value_enc(v: JsonValue, rest: Seq<u8>)
    ensures
        sp_value(enc_value(v) + rest) == Some((v, rest)),
{
    let t = enc_value(v) + rest;
    match v {
        JsonValue::Str(s) => {
            assert(t[0] == QUOTE);
            lemma_string_enc(s, rest);
        },
        JsonValue::Arr(xs) => {
            assert(t[0] == LBRACKET);
            lemma_array_enc(xs, rest);
        },
        JsonValue::Null => {
            assert(t =~= seq![0x6e, 0x75, 0x6c, 0x6c] + rest);
            assert(t[0] == 0x6e && t[1] == 0x75 && t[2] == 0x6c && t[3] == 0x6c);
            assert(t.len() >= 4);
            assert(t.skip(4) =~= rest);
        },
    }
}

/// An encoded pair parses back to itself.
proof fn lemma_pair_enc(k: Seq<u8>, v: JsonValue, rest: Seq<u8>)
    ensures
        sp_pair(enc_string(k) + seq![COLON] + enc_value(v) + rest) == Some(((k, v), rest)),
{
    let t = enc_string(k) + seq![COLON] + enc_value(v) + rest;
    let r1 = seq![COLON] + (enc_value(v) + rest);
    assert(t =~= enc_string(k) + r1);
    lemma_string_enc(k, r1);
    assert(r1[0] == COLON);
    assert(r1.drop_first() =~= enc_value(v) + rest);
    lemma_value_enc(v, rest);
}

/// The canonical frame holding one field.
spec fn enc_obj1(k1: Seq<u8>, v1: JsonValue) -> Seq<u8> {
    seq![LBRACE] + enc_string(k1) + seq![COLON] + enc_value(v1) + seq![RBRACE]
}

/// The canonical frame holding two fields.
spec fn enc_obj2(k1: Seq<u8>, v1: JsonValue, k2: Seq<u8>, v2: JsonValue) -> Seq<u8> {
    seq![LBRACE] + enc_string(k1) + seq![COLON] + enc_value(v1) + seq![COMMA] + enc_string(k2)
        + seq![COLON] + enc_value(v2) + seq![RBRACE]
}

/// A one-field frame parses back to its pair, with nothing left over.
proof fn lemma_obj1_enc(k1: Seq<u8>, v1: JsonValue)
    ensures
        sp_object(enc_obj1(k1, v1)) == Some((seq![(k1, v1)], Seq::<u8>::empty())),
{
    let t = enc_obj1(k1, v1);
    assert(t[0] == LBRACE);
    assert(t[1] == QUOTE);
    assert(t.drop_first() =~= enc_string(k1) + seq![COLON] + enc_value(v1) + seq![RBRACE]);
    lemma_pair_enc(k1, v1, seq![RBRACE]);
    assert(seq![RBRACE][0] == RBRACE);
    assert(seq![RBRACE].drop_first() =~= Seq::<u8>::empty());
    assert(sp_members(seq![RBRACE]) == Some(
        (Seq::<(Seq<u8>, JsonValue)>::empty(), Seq::<u8>::empty()),
    ));
    assert(seq![(k1, v1)] + Seq::<(Seq<u8>, JsonValue)>::empty() =~= seq![(k1, v1)]);
}

/// A two-field frame parses back to its pairs, with nothing left over.
proof fn lemma_obj2_enc(k1: Seq<u8>, v1: JsonValue, k2: Seq<u8>, v2: JsonValue)
    ensures
        sp_object(enc_obj2(k1, v1, k2, v2)) == Some(
            (seq![(k1, v1), (k2, v2)], Seq::<u8>::empty()),
        ),
{
    let t = enc_obj2(k1, v1, k2, v2);
    let rest1 = seq![COMMA] + (enc_string(k2) + seq![COLON] + enc_value(v2) + seq![RBRACE]);
    assert(t[0] == LBRACE);
    assert(t[1] == QUOTE);
    assert(t.drop_first() =~= enc_string(k1) + seq![COLON] + enc_value(v1) + rest1);
    lemma_pair_enc(k1, v1, rest1);
    assert(rest1[0] == COMMA);
    assert(rest1.drop_first() =~= enc_string(k2) + seq![COLON] + enc_value(v2) + seq![RBRACE]);
    lemma_pair_enc(k2, v2, seq![RBRACE]);
    assert(seq![RBRACE][0] == RBRACE);
    assert(seq![RBRACE].drop_first() =~= Seq::<u8>::empty());
    assert(sp_members(seq![RBRACE]) == Some(
        (Seq::<(Seq<u8>, JsonValue)>::empty(), Seq::<u8>::empty()),
    ));
    assert(sp_members(rest1) == Some(
        (seq![(k2, v2)] + Seq::<(Seq<u8>, JsonValue)>::empty(), Seq::<u8>::empty()),
    ));
    assert(seq![(k2, v2)] + Seq::<(Seq<u8>, JsonValue)>::empty() =~= seq![(k2, v2)]);
    assert(seq![(k1, v1)] + seq![(k2, v2)] =~= seq![(k1, v1), (k2, v2)]);
}

/// Round trip of a `register` envelope.
proof fn lemma_round_trip_register(d: Seq<u8>)
    ensures
        sp_decode(enc_env(EnvelopeView::Register(d))) == Ok::<EnvelopeView, DecodeError>(
            EnvelopeView::Register(d),
        ),
{
    let t = enc_env(EnvelopeView::Register(d));
    assert(t =~= enc_obj2(mt_key(), JsonValue::Str(register_tag()), data_key(), JsonValue::Str(d)));
    lemma_obj2_enc(mt_key(), JsonValue::Str(register_tag()), data_key(), JsonValue::Str(d));
    let ps = seq![
        (mt_key(), JsonValue::Str(register_tag())),
        (data_key(), JsonValue::Str(d)),
    ];
    assert(sp_object(t) == Some((ps, Seq::<u8>::empty())));
    assert(lookup(ps, mt_key()) == Some(JsonValue::Str(register_tag())));
    assert(register_tag().len() != users_tag().len());
    assert(register_tag() != users_tag());
    assert(mt_key().len() != data_key().len());
    assert(mt_key() != data_key());
    assert(ps.drop_first() =~= seq![(data_key(), JsonValue::Str(d))]);
    assert(lookup(ps.drop_first(), data_key()) == Some(JsonValue::Str(d)));
    assert(lookup(ps, data_key()) == Some(JsonValue::Str(d)));
}

/// Round trip of a `users` envelope.
proof fn lemma_round_trip_users(xs: Seq<Seq<u8>>)
    ensures
        sp_decode(enc_env(EnvelopeView::Users(xs))) == Ok::<EnvelopeView, DecodeError>(
            EnvelopeView::Users(xs),
        ),
{
    let t = enc_env(EnvelopeView::Users(xs));
    assert(t =~= enc_obj2(mt_key(), JsonValue::Str(users_tag()), da_key(), JsonValue::Arr(xs)));
    lemma_obj2_enc(mt_key(), JsonValue::Str(users_tag()), da_key(), JsonValue::Arr(xs));
    let ps = seq![(mt_key(), JsonValue::Str(users_tag())), (da_key(), JsonValue::Arr(xs))];
    assert(sp_object(t) == Some((ps, Seq::<u8>::empty())));
    assert(lookup(ps, mt_key()) == Some(JsonValue::Str(users_tag())));
    assert(mt_key().len() != da_key().len());
    assert(mt_key() != da_key());
    assert(ps.drop_first() =~= seq![(da_key(), JsonValue::Arr(xs))]);
    assert(lookup(ps.drop_first(), da_key()) == Some(JsonValue::Arr(xs)));
    assert(lookup(ps, da_key()) == Some(JsonValue::Arr(xs)));
}

/// Round trip of a chat payload through its own encoding.
pub proof fn lemma_chat_round_trip(m: ChatMessageView)
    ensures
        sp_decode_chat(enc_chat(m)) == Some(m),
{
    let t = enc_chat(m);
    assert(t =~= enc_obj2(
        from_key(),
        JsonValue::Str(m.from),
        message_bytes(),
        JsonValue::Str(m.message),
    ));
    lemma_obj2_enc(from_key(), JsonValue::Str(m.from), message_bytes(), JsonValue::Str(m.message));
    let ps = seq![
        (from_key(), JsonValue::Str(m.from)),
        (message_bytes(), JsonValue::Str(m.message)),
    ];
    assert(sp_object(t) == Some((ps, Seq::<u8>::empty())));
    assert(lookup(ps, from_key()) == Some(JsonValue::Str(m.from)));
    assert(from_key().len() != message_bytes().len());
    assert(from_key() != message_bytes());
    assert(ps.drop_first() =~= seq![(message_bytes(), JsonValue::Str(m.message))]);
    assert(lookup(ps.drop_first(), message_bytes()) == Some(JsonValue::Str(m.message)));
    assert(lookup(ps, message_bytes()) == Some(JsonValue::Str(m.message)));
    assert(ChatMessageView { from: m.from, message: m.message } =~= m);
}

/// Round trip of a `message` envelope.
#[verifier::rlimit(100)]
proof fn lemma_round_trip_message(m: ChatMessageView)
    ensures
        sp_decode(enc_env(EnvelopeView::Message(m))) == Ok::<EnvelopeView, DecodeError>(
            EnvelopeView::Message(m),
        ),
{
    let t = enc_env(EnvelopeView::Message(m));
    assert(t =~= enc_obj2(
        mt_key(),
        JsonValue::Str(message_bytes()),
        data_key(),
        JsonValue::Str(enc_chat(m)),
    ));
    lemma_obj2_enc(mt_key(), JsonValue::Str(message_bytes()), data_key(), JsonValue::Str(enc_chat(m)));
    let ps = seq![
        (mt_key(), JsonValue::Str(message_bytes())),
        (data_key(), JsonValue::Str(enc_chat(m))),
    ];
    assert(sp_object(t) == Some((ps, Seq::<u8>::empty())));
    assert(lookup(ps, mt_key()) == Some(JsonValue::Str(message_bytes())));
    assert(message_bytes().len() != users_tag().len());
    assert(message_bytes() != users_tag());
    assert(message_bytes().len() != register_tag().len());
    assert(message_bytes() != register_tag());
    assert(mt_key().len() != data_key().len());
    assert(mt_key() != data_key());
    assert(ps.drop_first() =~= seq![(data_key(), JsonValue::Str(enc_chat(m)))]);
    assert(lookup(ps.drop_first(), data_key()) == Some(JsonValue::Str(enc_chat(m))));
    assert(lookup(ps, data_key()) == Some(JsonValue::Str(enc_chat(m))));
    lemma_chat_round_trip(m);
}

/// Round trip of an `Other` envelope.
proof fn lemma_round_trip_other()
    ensures
        sp_decode(enc_env(EnvelopeView::Other)) == Ok::<EnvelopeView, DecodeError>(
            EnvelopeView::Other,
        ),
{
    let t = enc_env(EnvelopeView::Other);
    assert(t =~= enc_obj1(mt_key(), JsonValue::Str(unknown_tag())));
    lemma_obj1_enc(mt_key(), JsonValue::Str(unknown_tag()));
    let ps = seq![(mt_key(), JsonValue::Str(unknown_tag()))];
    assert(sp_object(t) == Some((ps, Seq::<u8>::empty())));
    assert(lookup(ps, mt_key()) == Some(JsonValue::Str(unknown_tag())));
    assert(unknown_tag().len() != users_tag().len());
    assert(unknown_tag() != users_tag());
    assert(unknown_tag().len() != register_tag().len());
    assert(unknown_tag() != register_tag());
    assert(unknown_tag()[0] != message_bytes()[0]);
    assert(unknown_tag() != message_bytes());
}

/// Round trip: decoding the canonical encoding of any envelope gives the
/// envelope back, for every constructible envelope value.
pub proof fn lemma_round_trip(e: EnvelopeView)
    ensures
        sp_decode(enc_env(e)) == Ok::<EnvelopeView, DecodeError>(e),
{
    match e {
        EnvelopeView::Register(d) => lemma_round_trip_register(d),
        EnvelopeView::Users(xs) => lemma_round_trip_users(xs),
        EnvelopeView::Message(m) => lemma_round_trip_message(m),
        EnvelopeView::Other => lemma_round_trip_other(),
    }
}

} // verus!
