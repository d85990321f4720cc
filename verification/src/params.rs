//! The query adapter: the caller-supplied filter criteria for the upstream
//! listing call, held as opaque key/value byte pairs, with a verified
//! percent-encoding of the outbound query string and a verified parser for
//! an inbound one. The round trip — parse what was encoded — reconstructs
//! the pairs exactly; see `lemma_query_round_trip`.

use vstd::prelude::*;

verus! {

pub const PERCENT: u8 = 0x25;
pub const AMPERSAND: u8 = 0x26;
pub const EQUALS: u8 = 0x3d;

/// The validated parameter set attached to the outbound call: key/value
/// pairs, passed through without renaming, dropping or reordering.
pub struct ListRequestParams {
    pub pairs: Vec<(Vec<u8>, Vec<u8>)>,
}

/// The spec-level value of a pair list.
pub open spec fn pairs_view(ps: Seq<(Vec<u8>, Vec<u8>)>) -> Seq<(Seq<u8>, Seq<u8>)> {
    ps.map_values(|p: (Vec<u8>, Vec<u8>)| (p.0@, p.1@))
}

impl View for ListRequestParams {
    type V = Seq<(Seq<u8>, Seq<u8>)>;

    open spec fn view(&self) -> Seq<(Seq<u8>, Seq<u8>)> {
        pairs_view(self.pairs@)
    }
}

/// A byte that stands for itself in the encoded query string: ASCII letters
/// and digits and `-`, `.`, `_`, `~`.
pub open spec fn is_unreserved(b: u8) -> bool {
    (0x41 <= b && b <= 0x5a) || (0x61 <= b && b <= 0x7a) || (0x30 <= b && b <= 0x39)
        || b == 0x2d || b == 0x2e || b == 0x5f || b == 0x7e
}

/// The upper-case hex digit for a value below 16.
pub open spec fn spec_hex_upper(n: u8) -> u8 {
    if n < 10 {
        (0x30 + n) as u8
    } else {
        (0x41 + (n - 10)) as u8
    }
}

/// An upper-case hex digit byte.
pub open spec fn is_hex_digit(b: u8) -> bool {
    (0x30 <= b && b <= 0x39) || (0x41 <= b && b <= 0x46)
}

/// The value of an upper-case hex digit byte.
pub open spec fn hex_val(b: u8) -> u8
    recommends
        is_hex_digit(b),
{
    if b <= 0x39 {
        (b - 0x30) as u8
    } else {
        ((b - 0x41) + 10) as u8
    }
}

/// Encoding of one byte: unreserved bytes stand for themselves, every other
/// byte becomes `%XX` with upper-case hex digits.
pub open spec fn spec_enc_byte(b: u8) -> Seq<u8> {
    if is_unreserved(b) {
        seq![b]
    } else {
        seq![PERCENT, spec_hex_upper(b / 16), spec_hex_upper(b % 16)]
    }
}

/// Encoding of a key or a value.
pub open spec fn spec_enc_bytes(s: Seq<u8>) -> Seq<u8>
    decreases s.len(),
{
    if s.len() == 0 {
        seq![]
    } else {
        spec_enc_byte(s[0]) + spec_enc_bytes(s.drop_first())
    }
}

/// Encoding of one pair: `<key>=<value>`.
pub open spec fn spec_enc_pair(k: Seq<u8>, v: Seq<u8>) -> Seq<u8> {
    spec_enc_bytes(k) + seq![EQUALS] + spec_enc_bytes(v)
}

/// Encoding of the whole parameter set: pairs joined with `&`, in order.
pub open spec fn spec_enc_qs(ps: Seq<(Seq<u8>, Seq<u8>)>) -> Seq<u8>
    decreases ps.len(),
{
    if ps.len() == 0 {
        seq![]
    } else if ps.len() == 1 {
        spec_enc_pair(ps[0].0, ps[0].1)
    } else {
        spec_enc_pair(ps[0].0, ps[0].1) + seq![AMPERSAND] + spec_enc_qs(ps.drop_first())
    }
}

/// Decoding of a key: percent-decoded bytes up to a mandatory `=`, which is
/// consumed. Yields the key and the remaining input.
pub open spec fn sp_key(s: Seq<u8>) -> Option<(Seq<u8>, Seq<u8>)>
    decreases s.len(),
{
    if s.len() == 0 {
        Option::None
    } else if s[0] == EQUALS {
        Option::Some((seq![], s.drop_first()))
    } else if is_unreserved(s[0]) {
        match sp_key(s.drop_first()) {
            Option::Some((k, r)) => Option::Some((seq![s[0]] + k, r)),
            Option::None => Option::None,
        }
    } else if s[0] == PERCENT && s.len() >= 3 && is_hex_digit(s[1]) && is_hex_digit(s[2]) {
        match sp_key(s.skip(3)) {
            Option::Some((k, r)) => Option::Some(
                (seq![(hex_val(s[1]) * 16 + hex_val(s[2])) as u8] + k, r),
            ),
            Option::None => Option::None,
        }
    } else {
        Option::None
    }
}

/// Decoding of a value: percent-decoded bytes up to a `&` (left in place)
/// or the end of the input. Yields the value and the remaining input.
pub open spec fn sp_val(s: Seq<u8>) -> Option<(Seq<u8>, Seq<u8>)>
    decreases s.len(),
{
    if s.len() == 0 {
        Option::Some((seq![], seq![]))
    } else if s[0] == AMPERSAND {
        Option::Some((seq![], s))
    } else if is_unreserved(s[0]) {
        match sp_val(s.drop_first()) {
            Option::Some((v, r)) => Option::Some((seq![s[0]] + v, r)),
            Option::None => Option::None,
        }
    } else if s[0] == PERCENT && s.len() >= 3 && is_hex_digit(s[1]) && is_hex_digit(s[2]) {
        match sp_val(s.skip(3)) {
            Option::Some((v, r)) => Option::Some(
                (seq![(hex_val(s[1]) * 16 + hex_val(s[2])) as u8] + v, r),
            ),
            Option::None => Option::None,
        }
    } else {
        Option::None
    }
}

/// Decoding of a non-empty pair list: `<key>=<value>` pairs joined with `&`,
/// consuming the whole input. The guard `rest.len() < s.len()` never fails
/// (a key consumes at least its `=`); it makes termination plain.
pub open spec fn sp_pairs(s: Seq<u8>) -> Option<Seq<(Seq<u8>, Seq<u8>)>>
    decreases s.len(),
{
    match sp_key(s) {
        Option::None => Option::None,
        Option::Some((k, r1)) => match sp_val(r1) {
            Option::None => Option::None,
            Option::Some((v, r2)) => {
                if r2.len() == 0 {
                    Option::Some(seq![(k, v)])
                } else if r2[0] == AMPERSAND {
                    let rest = r2.drop_first();
                    if rest.len() < s.len() {
                        match sp_pairs(rest) {
                            Option::Some(ps) => Option::Some(seq![(k, v)] + ps),
                            Option::None => Option::None,
                        }
                    } else {
                        Option::None
                    }
                } else {
                    Option::None
                }
            }
        },
    }
}

/// Decoding of a whole query string; the empty string is the empty set.
pub open spec fn spec_parse_qs(s: Seq<u8>) -> Option<Seq<(Seq<u8>, Seq<u8>)>> {
    if s.len() == 0 {
        Option::Some(seq![])
    } else {
        sp_pairs(s)
    }
}

/// The hex digits of an encoded nibble decode back to it.
proof fn lemma_hex_round(n: u8)
    requires
        n < 16,
    ensures
        is_hex_digit(spec_hex_upper(n)),
        hex_val(spec_hex_upper(n)) == n,
{
}

/// Decoding after encoding a key, with the consumed `=`, yields the key and
/// leaves the rest untouched.
proof fn lemma_key_round(k: Seq<u8>, rest: Seq<u8>)
    ensures
        sp_key(spec_enc_bytes(k) + seq![EQUALS] + rest) == Option::Some((k, rest)),
    decreases k.len(),
{
    let s = spec_enc_bytes(k) + seq![EQUALS] + rest;
    if k.len() == 0 {
        assert(spec_enc_bytes(k) =~= Seq::<u8>::empty());
        assert(s =~= seq![EQUALS] + rest);
        assert(s[0] == EQUALS);
        assert(s.drop_first() =~= rest);
        assert(k =~= Seq::<u8>::empty());
    } else {
        let b = k[0];
        let k2 = k.drop_first();
        lemma_key_round(k2, rest);
        let s2 = spec_enc_bytes(k2) + seq![EQUALS] + rest;
        if is_unreserved(b) {
            assert(s =~= seq![b] + s2);
            assert(s[0] == b);
            assert(s.drop_first() =~= s2);
            assert(seq![b] + k2 =~= k);
        } else {
            lemma_hex_round(b / 16);
            lemma_hex_round(b % 16);
            assert(s =~= seq![PERCENT, spec_hex_upper(b / 16), spec_hex_upper(b % 16)] + s2);
            assert(s[0] == PERCENT && s[1] == spec_hex_upper(b / 16) && s[2] == spec_hex_upper(b % 16));
            assert(s.len() >= 3);
            assert(hex_val(s[1]) * 16 + hex_val(s[2]) == b);
            assert(s.skip(3) =~= s2);
            assert(seq![b] + k2 =~= k);
        }
    }
}

/// Decoding after encoding a value, in front of a `&` or the input's end,
/// yields the value and leaves the rest untouched.
proof fn lemma_val_round(v: Seq<u8>, rest: Seq<u8>)
    requires
        rest.len() == 0 || rest[0] == AMPERSAND,
    ensures
        sp_val(spec_enc_bytes(v) + rest) == Option::Some((v, rest)),
    decreases v.len(),
{
    let s = spec_enc_bytes(v) + rest;
    if v.len() == 0 {
        assert(spec_enc_bytes(v) =~= Seq::<u8>::empty());
        assert(s =~= rest);
        assert(v =~= Seq::<u8>::empty());
        if rest.len() == 0 {
            assert(rest =~= Seq::<u8>::empty());
        } else {
            assert(s[0] == AMPERSAND);
        }
    } else {
        let b = v[0];
        let v2 = v.drop_first();
        lemma_val_round(v2, rest);
        let s2 = spec_enc_bytes(v2) + rest;
        if is_unreserved(b) {
            assert(s =~= seq![b] + s2);
            assert(s[0] == b);
            assert(s.drop_first() =~= s2);
            assert(seq![b] + v2 =~= v);
        } else {
            lemma_hex_round(b / 16);
            lemma_hex_round(b % 16);
            assert(s =~= seq![PERCENT, spec_hex_upper(b / 16), spec_hex_upper(b % 16)] + s2);
            assert(s.len() >= 3);
            assert(hex_val(s[1]) * 16 + hex_val(s[2]) == b);
            assert(s.skip(3) =~= s2);
            assert(seq![b] + v2 =~= v);
        }
    }
}

/// Decoding after encoding a non-empty pair list yields the pairs exactly.
proof fn lemma_pairs_round(ps: Seq<(Seq<u8>, Seq<u8>)>)
    requires
        ps.len() >= 1,
    ensures
        sp_pairs(spec_enc_qs(ps)) == Option::Some(ps),
    decreases ps.len(),
{
    let s = spec_enc_qs(ps);
    let k = ps[0].0;
    let v = ps[0].1;
    if ps.len() == 1 {
        assert(s == spec_enc_pair(k, v));
        assert(s =~= spec_enc_bytes(k) + seq![EQUALS] + spec_enc_bytes(v));
        lemma_key_round(k, spec_enc_bytes(v));
        lemma_val_round(v, Seq::<u8>::empty());
        assert(spec_enc_bytes(v) + Seq::<u8>::empty() =~= spec_enc_bytes(v));
        assert(seq![(k, v)] =~= ps);
    } else {
        let ps2 = ps.drop_first();
        lemma_pairs_round(ps2);
        let s2 = spec_enc_qs(ps2);
        assert(s == spec_enc_pair(k, v) + seq![AMPERSAND] + s2);
        let tail = seq![AMPERSAND] + s2;
        assert(s =~= spec_enc_bytes(k) + seq![EQUALS] + (spec_enc_bytes(v) + tail));
        lemma_key_round(k, spec_enc_bytes(v) + tail);
        lemma_val_round(v, tail);
        assert(tail[0] == AMPERSAND);
        assert(tail.drop_first() =~= s2);
        assert(s.len() == spec_enc_pair(k, v).len() + 1 + s2.len());
        assert(spec_enc_pair(k, v).len() >= 1);
        assert(seq![(k, v)] + ps2 =~= ps);
    }
}

/// The round trip of the query adapter: parsing the encoded form of any
/// parameter set reconstructs the very same key/value pairs, in order.
pub proof fn lemma_query_round_trip(ps: Seq<(Seq<u8>, Seq<u8>)>)
    ensures
        spec_parse_qs(spec_enc_qs(ps)) == Option::Some(ps),
{
    if ps.len() == 0 {
        assert(spec_enc_qs(ps).len() == 0);
        assert(ps =~= Seq::<(Seq<u8>, Seq<u8>)>::empty());
    } else {
        lemma_pairs_round(ps);
        assert(spec_enc_qs(ps).len() >= 1);
    }
}

/// Whether `b` stands for itself in the encoding.
fn unreserved_byte(b: u8) -> (r: bool)
    ensures
        r == is_unreserved(b),
{
    (0x41 <= b && b <= 0x5a) || (0x61 <= b && b <= 0x7a) || (0x30 <= b && b <= 0x39)
        || b == 0x2d || b == 0x2e || b == 0x5f || b == 0x7e
}

/// Whether `b` is an upper-case hex digit.
fn hex_digit_byte(b: u8) -> (r: bool)
    ensures
        r == is_hex_digit(b),
{
    (0x30 <= b && b <= 0x39) || (0x41 <= b && b <= 0x46)
}

/// The value of an upper-case hex digit.
fn hex_value(b: u8) -> (r: u8)
    requires
        is_hex_digit(b),
    ensures
        r == hex_val(b),
        r < 16,
{
    if b <= 0x39 {
        b - 0x30
    } else {
        (b - 0x41) + 10
    }
}

/// Appends the encoding of one byte.
fn push_enc_byte(out: &mut Vec<u8>, b: u8)
    ensures
        final(out)@ == old(out)@ + spec_enc_byte(b),
{
    if unreserved_byte(b) {
        out.push(b);
        assert(out@ =~= old(out)@ + spec_enc_byte(b));
    } else {
        out.push(PERCENT);
        let hi = b / 16;
        let lo = b % 16;
        out.push(if hi < 10 { 0x30 + hi } else { 0x41 + (hi - 10) });
        out.push(if lo < 10 { 0x30 + lo } else { 0x41 + (lo - 10) });
        assert(out@ =~= old(out)@ + spec_enc_byte(b));
    }
}

/// Encoding a key or value byte by byte, from the end.
proof fn lemma_enc_bytes_push(s: Seq<u8>, b: u8)
    ensures
        spec_enc_bytes(s.push(b)) == spec_enc_bytes(s) + spec_enc_byte(b),
    decreases s.len(),
{
    if s.len() == 0 {
        assert(s.push(b)[0] == b);
        assert(s.push(b).drop_first() =~= Seq::<u8>::empty());
        assert(spec_enc_bytes(Seq::<u8>::empty()) == Seq::<u8>::empty());
        assert(spec_enc_bytes(s.push(b)) == spec_enc_byte(b) + Seq::<u8>::empty());
        assert(spec_enc_byte(b) + Seq::<u8>::empty() =~= spec_enc_byte(b));
        assert(spec_enc_bytes(s) + spec_enc_byte(b) =~= spec_enc_byte(b));
    } else {
        lemma_enc_bytes_push(s.drop_first(), b);
        assert(s.push(b)[0] == s[0]);
        assert(s.push(b).drop_first() =~= s.drop_first().push(b));
        assert(spec_enc_byte(s[0]) + (spec_enc_bytes(s.drop_first()) + spec_enc_byte(b))
            =~= (spec_enc_byte(s[0]) + spec_enc_bytes(s.drop_first())) + spec_enc_byte(b));
    }
}

/// Appends the encoding of a whole key or value.
fn push_enc_bytes(out: &mut Vec<u8>, bytes: &Vec<u8>)
    ensures
        final(out)@ == old(out)@ + spec_enc_bytes(bytes@),
{
    let ghost start = out@;
    let mut k: usize = 0;
    assert(bytes@.take(0) =~= Seq::<u8>::empty());
    assert(spec_enc_bytes(Seq::<u8>::empty()) == Seq::<u8>::empty());
    assert(out@ =~= start + spec_enc_bytes(bytes@.take(0)));
    while k < bytes.len()
        invariant
            k <= bytes.len(),
            out@ == start + spec_enc_bytes(bytes@.take(k as int)),
        decreases bytes.len() - k,
    {
        push_enc_byte(out, bytes[k]);
        proof {
            lemma_enc_bytes_push(bytes@.take(k as int), bytes@[k as int]);
            assert(bytes@.take(k + 1 as int) =~= bytes@.take(k as int).push(bytes@[k as int]));
            assert(out@ =~= start + spec_enc_bytes(bytes@.take(k + 1 as int)));
        }
        k = k + 1;
    }
    assert(bytes@.take(bytes@.len() as int) =~= bytes@);
}

/// Encoding the parameter set pair by pair, from the end.
proof fn lemma_enc_qs_push(ps: Seq<(Seq<u8>, Seq<u8>)>, x: (Seq<u8>, Seq<u8>))
    ensures
        spec_enc_qs(ps.push(x)) == if ps.len() == 0 {
            spec_enc_pair(x.0, x.1)
        } else {
            spec_enc_qs(ps) + seq![AMPERSAND] + spec_enc_pair(x.0, x.1)
        },
    decreases ps.len(),
{
    if ps.len() == 0 {
        assert(ps.push(x).len() == 1);
        assert(ps.push(x)[0] == x);
    } else {
        lemma_enc_qs_push(ps.drop_first(), x);
        assert(ps.push(x).drop_first() =~= ps.drop_first().push(x));
        assert(ps.push(x)[0] == ps[0]);
        if ps.len() == 1 {
            assert(spec_enc_qs(ps.push(x))
                == spec_enc_pair(ps[0].0, ps[0].1) + seq![AMPERSAND]
                    + spec_enc_qs(ps.drop_first().push(x)));
            assert(spec_enc_qs(ps.drop_first().push(x)) == spec_enc_pair(x.0, x.1));
        } else {
            assert(spec_enc_qs(ps) + seq![AMPERSAND] + spec_enc_pair(x.0, x.1)
                =~= spec_enc_pair(ps[0].0, ps[0].1) + seq![AMPERSAND]
                    + (spec_enc_qs(ps.drop_first()) + seq![AMPERSAND] + spec_enc_pair(x.0, x.1)));
        }
    }
}

/// Encodes the validated parameter set as the outbound query string: pairs
/// joined with `&`, keys and values percent-encoded, presence and order
/// exactly as held.
pub fn encode_query_string(params: &ListRequestParams) -> (r: Vec<u8>)
    ensures
        r@ == spec_enc_qs(params@),
{
    let mut out: Vec<u8> = Vec::new();
    let mut idx: usize = 0;
    assert(params@.take(0) =~= Seq::<(Seq<u8>, Seq<u8>)>::empty());
    assert(out@ =~= spec_enc_qs(params@.take(0)));
    while idx < params.pairs.len()
        invariant
            idx <= params.pairs.len(),
            out@ == spec_enc_qs(params@.take(idx as int)),
        decreases params.pairs.len() - idx,
    {
        let ghost before = params@.take(idx as int);
        if idx > 0 {
            out.push(AMPERSAND);
        }
        push_enc_bytes(&mut out, &params.pairs[idx].0);
        out.push(EQUALS);
        push_enc_bytes(&mut out, &params.pairs[idx].1);
        proof {
            lemma_enc_qs_push(before, params@[idx as int]);
            assert(params@.take(idx + 1 as int) =~= before.push(params@[idx as int]));
            assert(out@ =~= spec_enc_qs(params@.take(idx + 1 as int)));
        }
        idx = idx + 1;
    }
    assert(params@.take(params@.len() as int) =~= params@);
    out
}

/// Decodes a key at position `i`, exactly as `sp_key` says of the suffix.
fn dec_key(s: &Vec<u8>, i: usize) -> (r: Option<(Vec<u8>, usize)>)
    requires
        i <= s.len(),
    ensures
        r matches Option::Some((k, j)) ==> i < j <= s.len()
            && sp_key(s@.skip(i as int)) == Option::Some((k@, s@.skip(j as int))),
        r is None ==> sp_key(s@.skip(i as int)) is None,
    decreases s.len() - i,
{
    proof {
        let suf = s@.skip(i as int);
        assert(suf.len() == s@.len() - i);
        if i < s@.len() {
            assert(suf[0] == s@[i as int]);
        }
        if s@.len() - i >= 3 {
            assert(suf[1] == s@[i + 1]);
            assert(suf[2] == s@[i + 2]);
        }
    }
    if i == s.len() {
        None
    } else if s[i] == EQUALS {
        assert(s@.skip(i as int).drop_first() =~= s@.skip(i + 1 as int));
        Some((Vec::new(), i + 1))
    } else if unreserved_byte(s[i]) {
        assert(s@.skip(i as int).drop_first() =~= s@.skip(i + 1 as int));
        match dec_key(s, i + 1) {
            Some((mut k, j)) => {
                let ghost kv = k@;
                k.insert(0, s[i]);
                proof {
                    assert(k@ =~= seq![s@[i as int]] + kv);
                }
                Some((k, j))
            }
            None => None,
        }
    } else if s[i] == PERCENT && s.len() - i >= 3 && hex_digit_byte(s[i + 1])
        && hex_digit_byte(s[i + 2]) {
        assert(s@.skip(i as int).skip(3) =~= s@.skip(i + 3 as int));
        let b = hex_value(s[i + 1]) * 16 + hex_value(s[i + 2]);
        match dec_key(s, i + 3) {
            Some((mut k, j)) => {
                let ghost kv = k@;
                k.insert(0, b);
                proof {
                    assert(k@ =~= seq![b] + kv);
                }
                Some((k, j))
            }
            None => None,
        }
    } else {
        None
    }
}

/// Decodes a value at position `i`, exactly as `sp_val` says of the suffix.
fn dec_val(s: &Vec<u8>, i: usize) -> (r: Option<(Vec<u8>, usize)>)
    requires
        i <= s.len(),
    ensures
        r matches Option::Some((v, j)) ==> i <= j <= s.len()
            && sp_val(s@.skip(i as int)) == Option::Some((v@, s@.skip(j as int))),
        r is None ==> sp_val(s@.skip(i as int)) is None,
    decreases s.len() - i,
{
    proof {
        let suf = s@.skip(i as int);
        assert(suf.len() == s@.len() - i);
        if i < s@.len() {
            assert(suf[0] == s@[i as int]);
        }
        if s@.len() - i >= 3 {
            assert(suf[1] == s@[i + 1]);
            assert(suf[2] == s@[i + 2]);
        }
    }
    if i == s.len() {
        assert(s@.skip(i as int) =~= Seq::<u8>::empty());
        Some((Vec::new(), i))
    } else if s[i] == AMPERSAND {
        Some((Vec::new(), i))
    } else if unreserved_byte(s[i]) {
        assert(s@.skip(i as int).drop_first() =~= s@.skip(i + 1 as int));
        match dec_val(s, i + 1) {
            Some((mut v, j)) => {
                let ghost vv = v@;
                v.insert(0, s[i]);
                proof {
                    assert(v@ =~= seq![s@[i as int]] + vv);
                }
                Some((v, j))
            }
            None => None,
        }
    } else if s[i] == PERCENT && s.len() - i >= 3 && hex_digit_byte(s[i + 1])
        && hex_digit_byte(s[i + 2]) {
        assert(s@.skip(i as int).skip(3) =~= s@.skip(i + 3 as int));
        let b = hex_value(s[i + 1]) * 16 + hex_value(s[i + 2]);
        match dec_val(s, i + 3) {
            Some((mut v, j)) => {
                let ghost vv = v@;
                v.insert(0, b);
                proof {
                    assert(v@ =~= seq![b] + vv);
                }
                Some((v, j))
            }
            None => None,
        }
    } else {
        None
    }
}

/// Decodes the pair list at position `i`, exactly as `sp_pairs` says of the
/// suffix.
fn dec_pairs(s: &Vec<u8>, i: usize) -> (r: Option<Vec<(Vec<u8>, Vec<u8>)>>)
    requires
        i <= s.len(),
    ensures
        r matches Option::Some(ps) ==> sp_pairs(s@.skip(i as int)) == Option::Some(pairs_view(ps@)),
        r is None ==> sp_pairs(s@.skip(i as int)) is None,
    decreases s.len() - i,
{
    match dec_key(s, i) {
        None => None,
        Some((k, j)) => {
            let ghost kv = k@;
            match dec_val(s, j) {
                None => None,
                Some((v, m)) => {
                    let ghost vv = v@;
                    if m == s.len() {
                        assert(s@.skip(m as int) =~= Seq::<u8>::empty());
                        let mut ps: Vec<(Vec<u8>, Vec<u8>)> = Vec::new();
                        ps.push((k, v));
                        proof {
                            assert(pairs_view(ps@) =~= seq![(kv, vv)]);
                        }
                        Some(ps)
                    } else if s[m] == AMPERSAND {
                        assert(s@.skip(m as int)[0] == s@[m as int]);
                        assert(s@.skip(m as int).drop_first() =~= s@.skip(m + 1 as int));
                        match dec_pairs(s, m + 1) {
                            None => None,
                            Some(mut ps) => {
                                let ghost psv = ps@;
                                ps.insert(0, (k, v));
                                proof {
                                    assert(pairs_view(ps@) =~= seq![(kv, vv)] + pairs_view(psv));
                                }
                                Some(ps)
                            }
                        }
                    } else {
                        assert(s@.skip(m as int)[0] == s@[m as int]);
                        assert(s@.skip(m as int).len() > 0);
                        None
                    }
                }
            }
        }
    }
}

/// Parses an inbound query string into the validated parameter set. Returns
/// the pairs exactly when the input is in the encoding's grammar
/// (`spec_parse_qs`), and rejects it otherwise.
pub fn parse_query_string(s: &Vec<u8>) -> (r: Option<ListRequestParams>)
    ensures
        r matches Option::Some(p) ==> spec_parse_qs(s@) == Option::Some(p@),
        r is None ==> spec_parse_qs(s@) is None,
{
    if s.len() == 0 {
        let p = ListRequestParams { pairs: Vec::new() };
        proof {
            assert(p@ =~= Seq::<(Seq<u8>, Seq<u8>)>::empty());
        }
        Some(p)
    } else {
        assert(s@.skip(0) =~= s@);
        match dec_pairs(s, 0) {
            Some(ps) => Some(ListRequestParams { pairs: ps }),
            None => None,
        }
    }
}


} // verus!
