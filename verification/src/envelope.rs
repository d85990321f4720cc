//! The two outgoing body shapes of the gateway: the success envelope
//! (`{"data":[...]}`, mirroring the upstream listing schema) and the error
//! envelope (`{"error":{"code":...,"message":...,"metadata":...}}`), each
//! with an exact byte-level serialization spec and a verified serializer.

use vstd::prelude::*;

verus! {

// ASCII bytes the JSON grammar is built from.
pub const QUOTE: u8 = 0x22;
pub const COMMA: u8 = 0x2c;
pub const COLON: u8 = 0x3a;
pub const LBRACE: u8 = 0x7b;
pub const RBRACE: u8 = 0x7d;
pub const LBRACK: u8 = 0x5b;
pub const RBRACK: u8 = 0x5d;
pub const BACKSLASH: u8 = 0x5c;

/// One record of the upstream listing. The gateway's schema requires of each
/// element of `data` exactly one field, `id`, holding a string.
pub struct ModelEntry {
    pub id: Vec<u8>,
}

impl View for ModelEntry {
    type V = Seq<u8>;

    open spec fn view(&self) -> Seq<u8> {
        self.id@
    }
}

/// The success envelope: the upstream's `{"data":[...]}` shape, relayed
/// structurally unchanged.
pub struct ResponseEnvelope {
    pub data: Vec<ModelEntry>,
}

/// The spec-level value of a record list: the ids, in order.
pub open spec fn entries_view(es: Seq<ModelEntry>) -> Seq<Seq<u8>> {
    es.map_values(|e: ModelEntry| e@)
}

impl View for ResponseEnvelope {
    type V = Seq<Seq<u8>>;

    open spec fn view(&self) -> Seq<Seq<u8>> {
        entries_view(self.data@)
    }
}

/// The inner object of the error envelope. `code` is always 500 on the
/// gateway's own failure paths; `metadata` is always absent there.
pub struct ErrorEnvelopeInner {
    pub code: u16,
    pub message: Vec<u8>,
    pub metadata: Option<Vec<u8>>,
}

/// The failure envelope: `{"error":{...}}`.
pub struct ErrorEnvelope {
    pub error: ErrorEnvelopeInner,
}

/// The spec-level value of an optional metadata field.
pub open spec fn opt_bytes_view(o: Option<Vec<u8>>) -> Option<Seq<u8>> {
    match o {
        Option::Some(m) => Option::Some(m@),
        Option::None => Option::None,
    }
}

/// A string byte the success-envelope grammar admits unescaped: printable
/// ASCII other than the quote and the backslash.
pub open spec fn is_plain_byte(b: u8) -> bool {
    0x20 <= b && b <= 0x7e && b != QUOTE && b != BACKSLASH
}

/// Serialization of one listing record: `{"id":"<id>"}`.
pub open spec fn spec_ser_entry(id: Seq<u8>) -> Seq<u8> {
    seq![LBRACE, QUOTE, 0x69u8, 0x64u8, QUOTE, COLON, QUOTE] + id + seq![QUOTE, RBRACE]
}

/// Serialization of the records of `data`, comma-separated.
pub open spec fn spec_ser_entries(ids: Seq<Seq<u8>>) -> Seq<u8>
    decreases ids.len(),
{
    if ids.len() == 0 {
        seq![]
    } else if ids.len() == 1 {
        spec_ser_entry(ids[0])
    } else {
        spec_ser_entry(ids[0]) + seq![COMMA] + spec_ser_entries(ids.drop_first())
    }
}

/// Serialization of the whole success envelope: `{"data":[...]}`.
pub open spec fn spec_ser_envelope(ids: Seq<Seq<u8>>) -> Seq<u8> {
    seq![LBRACE, QUOTE, 0x64u8, 0x61u8, 0x74u8, 0x61u8, QUOTE, COLON, LBRACK]
        + spec_ser_entries(ids) + seq![RBRACK, RBRACE]
}

/// Decimal rendering of a number, most significant digit first, no sign,
/// no leading zero (except for the number 0 itself).
pub open spec fn spec_dec(n: nat) -> Seq<u8>
    decreases n,
{
    if n < 10 {
        seq![(0x30 + n) as u8]
    } else {
        spec_dec(n / 10) + seq![(0x30 + n % 10) as u8]
    }
}

/// The lower-case hex digit for a value below 16.
pub open spec fn spec_hex_lower(n: u8) -> u8 {
    if n < 10 {
        (0x30 + n) as u8
    } else {
        (0x61 + (n - 10)) as u8
    }
}

/// JSON string escaping of one message byte: quote and backslash get a
/// backslash, control bytes become `\u00XX`, everything else passes through.
pub open spec fn spec_escape_byte(b: u8) -> Seq<u8> {
    if b == QUOTE {
        seq![BACKSLASH, QUOTE]
    } else if b == BACKSLASH {
        seq![BACKSLASH, BACKSLASH]
    } else if b < 0x20 {
        seq![BACKSLASH, 0x75u8, 0x30u8, 0x30u8, spec_hex_lower(b / 16), spec_hex_lower(b % 16)]
    } else {
        seq![b]
    }
}

/// JSON string escaping of a whole message.
pub open spec fn spec_escape(s: Seq<u8>) -> Seq<u8>
    decreases s.len(),
{
    if s.len() == 0 {
        seq![]
    } else {
        spec_escape_byte(s[0]) + spec_escape(s.drop_first())
    }
}

/// Serialization of the error envelope:
/// `{"error":{"code":<code>,"message":"<message>","metadata":<metadata>}}`,
/// where an absent metadata renders as `null` and a present one as a string.
pub open spec fn spec_ser_error(code: u16, message: Seq<u8>, metadata: Option<Seq<u8>>) -> Seq<u8> {
    seq![LBRACE, QUOTE, 0x65u8, 0x72u8, 0x72u8, 0x6fu8, 0x72u8, QUOTE, COLON,
         LBRACE, QUOTE, 0x63u8, 0x6fu8, 0x64u8, 0x65u8, QUOTE, COLON]
        + spec_dec(code as nat)
        + seq![COMMA, QUOTE, 0x6du8, 0x65u8, 0x73u8, 0x73u8, 0x61u8, 0x67u8, 0x65u8, QUOTE, COLON, QUOTE]
        + spec_escape(message)
        + seq![QUOTE, COMMA, QUOTE, 0x6du8, 0x65u8, 0x74u8, 0x61u8, 0x64u8, 0x61u8, 0x74u8, 0x61u8, QUOTE, COLON]
        + (match metadata {
            Option::Some(m) => seq![QUOTE] + spec_escape(m) + seq![QUOTE],
            Option::None => seq![0x6eu8, 0x75u8, 0x6cu8, 0x6cu8],
        })
        + seq![RBRACE, RBRACE]
}

/// Appending one record to `data` appends a comma (if the list was not
/// empty) and the record's serialization.
pub proof fn lemma_ser_entries_push(ids: Seq<Seq<u8>>, x: Seq<u8>)
    ensures
        spec_ser_entries(ids.push(x)) == if ids.len() == 0 {
            spec_ser_entry(x)
        } else {
            spec_ser_entries(ids) + seq![COMMA] + spec_ser_entry(x)
        },
    decreases ids.len(),
{
    if ids.len() == 0 {
        assert(ids.push(x).len() == 1);
        assert(ids.push(x)[0] == x);
    } else {
        lemma_ser_entries_push(ids.drop_first(), x);
        assert(ids.push(x).drop_first() =~= ids.drop_first().push(x));
        assert(ids.push(x)[0] == ids[0]);
        if ids.len() == 1 {
            assert(spec_ser_entries(ids.push(x))
                == spec_ser_entry(ids[0]) + seq![COMMA] + spec_ser_entries(ids.drop_first().push(x)));
            assert(spec_ser_entries(ids.drop_first().push(x)) == spec_ser_entry(x));
        } else {
            assert(spec_ser_entries(ids) + seq![COMMA] + spec_ser_entry(x)
                =~= spec_ser_entry(ids[0]) + seq![COMMA]
                    + (spec_ser_entries(ids.drop_first()) + seq![COMMA] + spec_ser_entry(x)));
        }
    }
}

/// Escaping a message byte by byte, from the end.
pub proof fn lemma_escape_push(s: Seq<u8>, b: u8)
    ensures
        spec_escape(s.push(b)) == spec_escape(s) + spec_escape_byte(b),
    decreases s.len(),
{
    if s.len() == 0 {
        assert(s.push(b)[0] == b);
        assert(s.push(b).drop_first() =~= Seq::<u8>::empty());
        assert(spec_escape(Seq::<u8>::empty()) == Seq::<u8>::empty());
        assert(spec_escape(s.push(b)) == spec_escape_byte(b) + Seq::<u8>::empty());
        assert(spec_escape_byte(b) + Seq::<u8>::empty() =~= spec_escape_byte(b));
        assert(spec_escape(s) + spec_escape_byte(b) =~= spec_escape_byte(b));
    } else {
        lemma_escape_push(s.drop_first(), b);
        assert(s.push(b)[0] == s[0]);
        assert(s.push(b).drop_first() =~= s.drop_first().push(b));
        assert(spec_escape_byte(s[0]) + (spec_escape(s.drop_first()) + spec_escape_byte(b))
            =~= (spec_escape_byte(s[0]) + spec_escape(s.drop_first())) + spec_escape_byte(b));
    }
}

/// Appends the serialization of one record, `{"id":"<id>"}`.
fn push_entry(out: &mut Vec<u8>, e: &ModelEntry)
    ensures
        final(out)@ == old(out)@ + spec_ser_entry(e@),
{
    let ghost start = out@;
    out.push(LBRACE);
    out.push(QUOTE);
    out.push(0x69);
    out.push(0x64);
    out.push(QUOTE);
    out.push(COLON);
    out.push(QUOTE);
    assert(out@ =~= start + seq![LBRACE, QUOTE, 0x69u8, 0x64u8, QUOTE, COLON, QUOTE]);
    let ghost mid = out@;
    let mut k: usize = 0;
    while k < e.id.len()
        invariant
            k <= e.id.len(),
            out@ == mid + e.id@.take(k as int),
        decreases e.id.len() - k,
    {
        out.push(e.id[k]);
        assert(e.id@.take(k + 1 as int) =~= e.id@.take(k as int).push(e.id@[k as int]));
        k = k + 1;
    }
    assert(e.id@.take(e.id@.len() as int) =~= e.id@);
    out.push(QUOTE);
    out.push(RBRACE);
    assert(out@ =~= start + spec_ser_entry(e@));
}

/// Serializes the success envelope as the gateway re-emits it:
/// `{"data":[...]}` with no added whitespace.
pub fn serialize_envelope(env: &ResponseEnvelope) -> (r: Vec<u8>)
    ensures
        r@ == spec_ser_envelope(env@),
{
    let mut out: Vec<u8> = Vec::new();
    out.push(LBRACE);
    out.push(QUOTE);
    out.push(0x64);
    out.push(0x61);
    out.push(0x74);
    out.push(0x61);
    out.push(QUOTE);
    out.push(COLON);
    out.push(LBRACK);
    let ghost hdr = seq![LBRACE, QUOTE, 0x64u8, 0x61u8, 0x74u8, 0x61u8, QUOTE, COLON, LBRACK];
    assert(out@ =~= hdr);
    let mut idx: usize = 0;
    while idx < env.data.len()
        invariant
            idx <= env.data.len(),
            out@ == hdr + spec_ser_entries(env@.take(idx as int)),
        decreases env.data.len() - idx,
    {
        let ghost before = env@.take(idx as int);
        if idx > 0 {
            out.push(COMMA);
        }
        push_entry(&mut out, &env.data[idx]);
        proof {
            lemma_ser_entries_push(before, env@[idx as int]);
            assert(env@.take(idx + 1 as int) =~= before.push(env@[idx as int]));
            if idx > 0 {
                assert(out@ =~= hdr + spec_ser_entries(env@.take(idx + 1 as int)));
            } else {
                assert(before.len() == 0);
                assert(out@ =~= hdr + spec_ser_entries(env@.take(idx + 1 as int)));
            }
        }
        idx = idx + 1;
    }
    assert(env@.take(env.data@.len() as int) =~= env@);
    out.push(RBRACK);
    out.push(RBRACE);
    assert(out@ =~= spec_ser_envelope(env@));
    out
}

/// Appends the decimal rendering of `n`.
fn push_dec(out: &mut Vec<u8>, n: u16)
    ensures
        final(out)@ == old(out)@ + spec_dec(n as nat),
    decreases n,
{
    if n < 10 {
        out.push(0x30 + n as u8);
    } else {
        push_dec(out, n / 10);
        out.push(0x30 + (n % 10) as u8);
        assert(out@ =~= old(out)@ + (spec_dec((n / 10) as nat) + seq![(0x30 + (n as nat) % 10) as u8]));
    }
}

/// Appends the escaped form of one message byte.
fn push_escaped_byte(out: &mut Vec<u8>, b: u8)
    ensures
        final(out)@ == old(out)@ + spec_escape_byte(b),
{
    if b == QUOTE {
        out.push(BACKSLASH);
        out.push(QUOTE);
        assert(out@ =~= old(out)@ + spec_escape_byte(b));
    } else if b == BACKSLASH {
        out.push(BACKSLASH);
        out.push(BACKSLASH);
        assert(out@ =~= old(out)@ + spec_escape_byte(b));
    } else if b < 0x20 {
        out.push(BACKSLASH);
        out.push(0x75);
        out.push(0x30);
        out.push(0x30);
        let hi = b / 16;
        let lo = b % 16;
        out.push(if hi < 10 { 0x30 + hi } else { 0x61 + (hi - 10) });
        out.push(if lo < 10 { 0x30 + lo } else { 0x61 + (lo - 10) });
        assert(out@ =~= old(out)@ + spec_escape_byte(b));
    } else {
        out.push(b);
        assert(out@ =~= old(out)@ + spec_escape_byte(b));
    }
}

/// Appends the escaped form of a whole message.
fn push_escaped(out: &mut Vec<u8>, msg: &Vec<u8>)
    ensures
        final(out)@ == old(out)@ + spec_escape(msg@),
{
    let ghost start = out@;
    let mut k: usize = 0;
    while k < msg.len()
        invariant
            k <= msg.len(),
            out@ == start + spec_escape(msg@.take(k as int)),
        decreases msg.len() - k,
    {
        push_escaped_byte(out, msg[k]);
        proof {
            lemma_escape_push(msg@.take(k as int), msg@[k as int]);
            assert(msg@.take(k + 1 as int) =~= msg@.take(k as int).push(msg@[k as int]));
            assert(out@ =~= start + spec_escape(msg@.take(k + 1 as int)));
        }
        k = k + 1;
    }
    assert(msg@.take(msg@.len() as int) =~= msg@);
}

/// Serializes the error envelope exactly as `spec_ser_error` states it.
#[verifier::rlimit(60)]
pub fn serialize_error(env: &ErrorEnvelope) -> (r: Vec<u8>)
    ensures
        r@ == spec_ser_error(env.error.code, env.error.message@, opt_bytes_view(env.error.metadata)),
{
    let mut out: Vec<u8> = Vec::new();
    out.push(LBRACE);
    out.push(QUOTE);
    out.push(0x65);
    out.push(0x72);
    out.push(0x72);
    out.push(0x6f);
    out.push(0x72);
    out.push(QUOTE);
    out.push(COLON);
    out.push(LBRACE);
    out.push(QUOTE);
    out.push(0x63);
    out.push(0x6f);
    out.push(0x64);
    out.push(0x65);
    out.push(QUOTE);
    out.push(COLON);
    let ghost h1 = seq![LBRACE, QUOTE, 0x65u8, 0x72u8, 0x72u8, 0x6fu8, 0x72u8, QUOTE, COLON,
        LBRACE, QUOTE, 0x63u8, 0x6fu8, 0x64u8, 0x65u8, QUOTE, COLON];
    assert(out@ =~= h1);
    push_dec(&mut out, env.error.code);
    out.push(COMMA);
    out.push(QUOTE);
    out.push(0x6d);
    out.push(0x65);
    out.push(0x73);
    out.push(0x73);
    out.push(0x61);
    out.push(0x67);
    out.push(0x65);
    out.push(QUOTE);
    out.push(COLON);
    out.push(QUOTE);
    let ghost h2 = seq![COMMA, QUOTE, 0x6du8, 0x65u8, 0x73u8, 0x73u8, 0x61u8, 0x67u8, 0x65u8, QUOTE, COLON, QUOTE];
    assert(out@ =~= h1 + spec_dec(env.error.code as nat) + h2);
    push_escaped(&mut out, &env.error.message);
    out.push(QUOTE);
    out.push(COMMA);
    out.push(QUOTE);
    out.push(0x6d);
    out.push(0x65);
    out.push(0x74);
    out.push(0x61);
    out.push(0x64);
    out.push(0x61);
    out.push(0x74);
    out.push(0x61);
    out.push(QUOTE);
    out.push(COLON);
    let ghost h3 = seq![QUOTE, COMMA, QUOTE, 0x6du8, 0x65u8, 0x74u8, 0x61u8, 0x64u8, 0x61u8, 0x74u8, 0x61u8, QUOTE, COLON];
    assert(out@ =~= h1 + spec_dec(env.error.code as nat) + h2 + spec_escape(env.error.message@) + h3);
    match &env.error.metadata {
        Option::Some(m) => {
            out.push(QUOTE);
            push_escaped(&mut out, m);
            out.push(QUOTE);
        }
        Option::None => {
            out.push(0x6e);
            out.push(0x75);
            out.push(0x6c);
            out.push(0x6c);
        }
    }
    out.push(RBRACE);
    out.push(RBRACE);
    assert(out@ =~= spec_ser_error(env.error.code, env.error.message@, opt_bytes_view(env.error.metadata)));
    out
}

} // verus!
