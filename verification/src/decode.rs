//! Decoding of the upstream body against the expected success-envelope
//! schema: a JSON object `{"data":[...]}` whose array holds records
//! `{"id":"<string>"}`, with whitespace allowed between tokens. String
//! content is printable ASCII without escapes; a body outside this grammar
//! does not match the schema and is reported as a decode failure.
//!
//! The grammar is stated once, as the spec functions `sp_*`; the executable
//! parser returns exactly what the spec functions say.

use vstd::prelude::*;
use crate::envelope::{
    ModelEntry, ResponseEnvelope, QUOTE, COMMA, COLON, LBRACE, RBRACE, LBRACK, RBRACK, BACKSLASH,
    is_plain_byte, entries_view, spec_ser_entry, spec_ser_entries, spec_ser_envelope,
};

verus! {

/// JSON whitespace: space, tab, line feed, carriage return.
pub open spec fn is_ws(b: u8) -> bool {
    b == 0x20 || b == 0x09 || b == 0x0a || b == 0x0d
}

/// The first position at or after `i` holding a non-whitespace byte
/// (or the end of the input).
pub open spec fn sp_ws(s: Seq<u8>, i: int) -> int
    decreases s.len() - i,
{
    if 0 <= i && i < s.len() && is_ws(s[i]) {
        sp_ws(s, i + 1)
    } else {
        i
    }
}

/// The key token `"id"` at position `i`.
pub open spec fn sp_lit_id(s: Seq<u8>, i: int) -> Option<int> {
    if 0 <= i && i + 4 <= s.len() && s[i] == QUOTE && s[i + 1] == 0x69 && s[i + 2] == 0x64
        && s[i + 3] == QUOTE {
        Option::Some(i + 4)
    } else {
        Option::None
    }
}

/// The key token `"data"` at position `i`.
pub open spec fn sp_lit_data(s: Seq<u8>, i: int) -> Option<int> {
    if 0 <= i && i + 6 <= s.len() && s[i] == QUOTE && s[i + 1] == 0x64 && s[i + 2] == 0x61
        && s[i + 3] == 0x74 && s[i + 4] == 0x61 && s[i + 5] == QUOTE {
        Option::Some(i + 6)
    } else {
        Option::None
    }
}

/// The content of a string after its opening quote: plain bytes up to the
/// closing quote. Yields the content and the position after the quote.
pub open spec fn sp_str_body(s: Seq<u8>, i: int) -> Option<(Seq<u8>, int)>
    decreases s.len() - i,
{
    if !(0 <= i && i < s.len()) {
        Option::None
    } else if s[i] == QUOTE {
        Option::Some((seq![], i + 1))
    } else if is_plain_byte(s[i]) {
        match sp_str_body(s, i + 1) {
            Option::Some((t, j)) => Option::Some((seq![s[i]] + t, j)),
            Option::None => Option::None,
        }
    } else {
        Option::None
    }
}

/// A quoted string at position `i`.
pub open spec fn sp_string(s: Seq<u8>, i: int) -> Option<(Seq<u8>, int)> {
    if 0 <= i && i < s.len() && s[i] == QUOTE {
        sp_str_body(s, i + 1)
    } else {
        Option::None
    }
}

/// One record of `data`: `{ "id" : "<string>" }`.
pub open spec fn sp_entry(s: Seq<u8>, i: int) -> Option<(Seq<u8>, int)> {
    if 0 <= i && i < s.len() && s[i] == LBRACE {
        let j = sp_ws(s, i + 1);
        match sp_lit_id(s, j) {
            Option::None => Option::None,
            Option::Some(k) => {
                let m = sp_ws(s, k);
                if m < s.len() && s[m] == COLON {
                    match sp_string(s, sp_ws(s, m + 1)) {
                        Option::None => Option::None,
                        Option::Some((id, p)) => {
                            let q = sp_ws(s, p);
                            if q < s.len() && s[q] == RBRACE {
                                Option::Some((id, q + 1))
                            } else {
                                Option::None
                            }
                        }
                    }
                } else {
                    Option::None
                }
            }
        }
    } else {
        Option::None
    }
}

/// A non-empty, comma-separated record list starting at position `i`.
/// The guard `i < m` never fails on a parse that got this far (each record
/// consumes at least one byte); it makes termination of the definition plain.
pub open spec fn sp_items(s: Seq<u8>, i: int) -> Option<(Seq<Seq<u8>>, int)>
    decreases s.len() - i,
{
    match sp_entry(s, i) {
        Option::None => Option::None,
        Option::Some((id, j)) => {
            let k = sp_ws(s, j);
            if 0 <= k && k < s.len() && s[k] == COMMA {
                let m = sp_ws(s, k + 1);
                if i < m && m <= s.len() {
                    match sp_items(s, m) {
                        Option::None => Option::None,
                        Option::Some((rest, e)) => Option::Some((seq![id] + rest, e)),
                    }
                } else {
                    Option::None
                }
            } else {
                Option::Some((seq![id], j))
            }
        }
    }
}

/// The tail of the envelope after the array: whitespace, `}`, whitespace,
/// end of input.
pub open spec fn sp_close(s: Seq<u8>, i: int) -> bool {
    let j = sp_ws(s, i);
    &&& j < s.len()
    &&& s[j] == RBRACE
    &&& sp_ws(s, j + 1) == s.len()
}

/// The whole expected schema: `{ "data" : [ <records> ] }` with nothing but
/// whitespace around the tokens, consuming the entire input. `None` is a
/// decode failure; `Some` carries the record ids in order.
pub open spec fn sp_envelope(s: Seq<u8>) -> Option<Seq<Seq<u8>>> {
    let i = sp_ws(s, 0);
    if i < s.len() && s[i] == LBRACE {
        let j = sp_ws(s, i + 1);
        match sp_lit_data(s, j) {
            Option::None => Option::None,
            Option::Some(k) => {
                let m = sp_ws(s, k);
                if m < s.len() && s[m] == COLON {
                    let p = sp_ws(s, m + 1);
                    if p < s.len() && s[p] == LBRACK {
                        let q = sp_ws(s, p + 1);
                        if q < s.len() && s[q] == RBRACK {
                            if sp_close(s, q + 1) {
                                Option::Some(seq![])
                            } else {
                                Option::None
                            }
                        } else {
                            match sp_items(s, q) {
                                Option::None => Option::None,
                                Option::Some((ids, r)) => {
                                    let t = sp_ws(s, r);
                                    if t < s.len() && s[t] == RBRACK && sp_close(s, t + 1) {
                                        Option::Some(ids)
                                    } else {
                                        Option::None
                                    }
                                }
                            }
                        }
                    } else {
                        Option::None
                    }
                } else {
                    Option::None
                }
            }
        }
    } else {
        Option::None
    }
}

/// Whether `b` is JSON whitespace.
fn ws_byte(b: u8) -> (r: bool)
    ensures
        r == is_ws(b),
{
    b == 0x20 || b == 0x09 || b == 0x0a || b == 0x0d
}

/// Whether `b` is a plain string byte of the grammar.
fn plain_byte(b: u8) -> (r: bool)
    ensures
        r == is_plain_byte(b),
{
    0x20 <= b && b <= 0x7e && b != QUOTE && b != BACKSLASH
}

/// Advances past whitespace, exactly as `sp_ws` says.
fn skip_ws(s: &Vec<u8>, i: usize) -> (r: usize)
    requires
        i <= s.len(),
    ensures
        r == sp_ws(s@, i as int),
        i <= r <= s.len(),
{
    let mut cur: usize = i;
    while cur < s.len() && ws_byte(s[cur])
        invariant
            i <= cur <= s.len(),
            sp_ws(s@, i as int) == sp_ws(s@, cur as int),
        decreases s.len() - cur,
    {
        cur = cur + 1;
    }
    cur
}

/// A run of plain bytes from `a` up to a closing quote at `e` is exactly a
/// string body: its content is that run.
proof fn lemma_str_body_run(s: Seq<u8>, a: int, e: int)
    requires
        0 <= a <= e < s.len(),
        forall|k: int| a <= k < e ==> is_plain_byte(s[k]),
        s[e] == QUOTE,
    ensures
        sp_str_body(s, a) == Option::Some((s.subrange(a, e), e + 1)),
    decreases e - a,
{
    if a == e {
        assert(s.subrange(a, e) =~= Seq::<u8>::empty());
    } else {
        lemma_str_body_run(s, a + 1, e);
        assert(is_plain_byte(s[a]));
        assert(s[a] != QUOTE);
        assert(seq![s[a]] + s.subrange(a + 1, e) =~= s.subrange(a, e));
    }
}

/// A run of plain bytes that ends at the input's end or at a byte that is
/// neither plain nor a quote is not a string body.
proof fn lemma_str_body_run_fail(s: Seq<u8>, a: int, e: int)
    requires
        0 <= a <= e <= s.len(),
        forall|k: int| a <= k < e ==> is_plain_byte(s[k]),
        e == s.len() || (!is_plain_byte(s[e]) && s[e] != QUOTE),
    ensures
        sp_str_body(s, a) is None,
    decreases e - a,
{
    if a < e {
        lemma_str_body_run_fail(s, a + 1, e);
        assert(s[a] != QUOTE);
    }
}

/// Parses a quoted string at `i`, exactly as `sp_string` says.
fn p_string(s: &Vec<u8>, i: usize) -> (r: Option<(Vec<u8>, usize)>)
    requires
        i <= s.len(),
    ensures
        r matches Option::Some((t, j)) ==> sp_string(s@, i as int) == Option::Some((t@, j as int))
            && i < j <= s.len(),
        r is None ==> sp_string(s@, i as int) is None,
{
    if i < s.len() && s[i] == QUOTE {
        let mut j: usize = i + 1;
        while j < s.len() && plain_byte(s[j])
            invariant
                i + 1 <= j <= s.len(),
                forall|k: int| i + 1 <= k < j ==> is_plain_byte(s@[k]),
            decreases s.len() - j,
        {
            j = j + 1;
        }
        if j < s.len() && s[j] == QUOTE {
            proof {
                lemma_str_body_run(s@, i + 1 as int, j as int);
            }
            let mut t: Vec<u8> = Vec::new();
            let mut k: usize = i + 1;
            while k < j
                invariant
                    i + 1 <= k <= j <= s.len(),
                    t@ == s@.subrange(i + 1 as int, k as int),
                decreases j - k,
            {
                t.push(s[k]);
                assert(s@.subrange(i + 1 as int, k + 1 as int)
                    =~= s@.subrange(i + 1 as int, k as int).push(s@[k as int]));
                k = k + 1;
            }
            Some((t, j + 1))
        } else {
            proof {
                lemma_str_body_run_fail(s@, i + 1 as int, j as int);
            }
            None
        }
    } else {
        None
    }
}

/// Parses one record at `i`, exactly as `sp_entry` says.
fn p_entry(s: &Vec<u8>, i: usize) -> (r: Option<(Vec<u8>, usize)>)
    requires
        i <= s.len(),
    ensures
        r matches Option::Some((id, j)) ==> sp_entry(s@, i as int) == Option::Some((id@, j as int))
            && i < j <= s.len(),
        r is None ==> sp_entry(s@, i as int) is None,
{
    if i < s.len() && s[i] == LBRACE {
        let j = skip_ws(s, i + 1);
        if s.len() - j >= 4 && s[j] == QUOTE && s[j + 1] == 0x69 && s[j + 2] == 0x64
            && s[j + 3] == QUOTE {
            let k = j + 4;
            let m = skip_ws(s, k);
            if m < s.len() && s[m] == COLON {
                match p_string(s, skip_ws(s, m + 1)) {
                    Some((id, p)) => {
                        let q = skip_ws(s, p);
                        if q < s.len() && s[q] == RBRACE {
                            Some((id, q + 1))
                        } else {
                            None
                        }
                    }
                    None => None,
                }
            } else {
                None
            }
        } else {
            assert(sp_lit_id(s@, j as int) is None);
            None
        }
    } else {
        None
    }
}

/// Parses the record list at `i`, exactly as `sp_items` says.
fn p_items(s: &Vec<u8>, i: usize) -> (r: Option<(Vec<ModelEntry>, usize)>)
    requires
        i <= s.len(),
    ensures
        r matches Option::Some((es, j)) ==> sp_items(s@, i as int)
            == Option::Some((entries_view(es@), j as int)) && i < j <= s.len(),
        r is None ==> sp_items(s@, i as int) is None,
    decreases s.len() - i,
{
    match p_entry(s, i) {
        None => None,
        Some((id, j)) => {
            let ghost idv = id@;
            let k = skip_ws(s, j);
            if k < s.len() && s[k] == COMMA {
                let m = skip_ws(s, k + 1);
                match p_items(s, m) {
                    None => None,
                    Some((mut rest, e)) => {
                        let ghost restv = rest@;
                        rest.insert(0, ModelEntry { id });
                        proof {
                            assert(entries_view(rest@) =~= seq![idv] + entries_view(restv));
                        }
                        Some((rest, e))
                    }
                }
            } else {
                let mut one: Vec<ModelEntry> = Vec::new();
                one.push(ModelEntry { id });
                proof {
                    assert(entries_view(one@) =~= seq![idv]);
                }
                Some((one, j))
            }
        }
    }
}

/// Whether the envelope closes properly after the array, exactly as
/// `sp_close` says.
fn p_close(s: &Vec<u8>, i: usize) -> (r: bool)
    requires
        i <= s.len(),
    ensures
        r == sp_close(s@, i as int),
{
    let j = skip_ws(s, i);
    if j < s.len() && s[j] == RBRACE {
        let t = skip_ws(s, j + 1);
        t == s.len()
    } else {
        false
    }
}

/// Decodes the upstream body against the expected schema. Returns the
/// decoded envelope exactly when the body is in the grammar (`sp_envelope`),
/// and `None` — a decode failure — otherwise.
pub fn parse_envelope(s: &Vec<u8>) -> (r: Option<ResponseEnvelope>)
    ensures
        r matches Option::Some(env) ==> sp_envelope(s@) == Option::Some(env@),
        r is None ==> sp_envelope(s@) is None,
{
    let i = skip_ws(s, 0);
    if i < s.len() && s[i] == LBRACE {
        let j = skip_ws(s, i + 1);
        if s.len() - j >= 6 && s[j] == QUOTE && s[j + 1] == 0x64 && s[j + 2] == 0x61
            && s[j + 3] == 0x74 && s[j + 4] == 0x61 && s[j + 5] == QUOTE {
            let k = j + 6;
            let m = skip_ws(s, k);
            if m < s.len() && s[m] == COLON {
                let p = skip_ws(s, m + 1);
                if p < s.len() && s[p] == LBRACK {
                    let q = skip_ws(s, p + 1);
                    if q < s.len() && s[q] == RBRACK {
                        if p_close(s, q + 1) {
                            let env = ResponseEnvelope { data: Vec::new() };
                            proof {
                                assert(env@ =~= Seq::<Seq<u8>>::empty());
                                assert(sp_envelope(s@) == Option::Some(env@));
                            }
                            Some(env)
                        } else {
                            None
                        }
                    } else {
                        match p_items(s, q) {
                            None => None,
                            Some((entries, r2)) => {
                                let t = skip_ws(s, r2);
                                if t < s.len() && s[t] == RBRACK && p_close(s, t + 1) {
                                    Some(ResponseEnvelope { data: entries })
                                } else {
                                    None
                                }
                            }
                        }
                    }
                } else {
                    None
                }
            } else {
                None
            }
        } else {
            assert(sp_lit_data(s@, j as int) is None);
            None
        }
    } else {
        None
    }
}

/// A parsed string body holds only plain bytes.
proof fn lemma_str_body_plain(s: Seq<u8>, i: int)
    ensures
        sp_str_body(s, i) matches Option::Some((t, j)) ==> forall|k: int|
            0 <= k < t.len() ==> is_plain_byte(t[k]),
    decreases s.len() - i,
{
    if 0 <= i && i < s.len() && s[i] != QUOTE && is_plain_byte(s[i]) {
        lemma_str_body_plain(s, i + 1);
        if sp_str_body(s, i + 1) is Some {
            let (t2, j2) = sp_str_body(s, i + 1)->Some_0;
            let t = seq![s[i]] + t2;
            assert forall|k: int| 0 <= k < t.len() implies is_plain_byte(t[k]) by {
                if k > 0 {
                    assert(t[k] == t2[k - 1]);
                }
            }
        }
    }
}

/// A parsed record's id holds only plain bytes.
proof fn lemma_entry_plain(s: Seq<u8>, i: int)
    ensures
        sp_entry(s, i) matches Option::Some((id, j)) ==> forall|k: int|
            0 <= k < id.len() ==> is_plain_byte(id[k]),
{
    if 0 <= i && i < s.len() && s[i] == LBRACE {
        let j = sp_ws(s, i + 1);
        if sp_lit_id(s, j) is Some {
            let k = sp_lit_id(s, j)->Some_0;
            let m = sp_ws(s, k);
            if m < s.len() && s[m] == COLON {
                lemma_str_body_plain(s, sp_ws(s, m + 1) + 1);
            }
        }
    }
}

/// Every id of a parsed record list holds only plain bytes.
proof fn lemma_items_plain(s: Seq<u8>, i: int)
    ensures
        sp_items(s, i) matches Option::Some((ids, j)) ==> forall|a: int, k: int|
            0 <= a < ids.len() && 0 <= k < ids[a].len() ==> is_plain_byte(ids[a][k]),
    decreases s.len() - i,
{
    lemma_entry_plain(s, i);
    if sp_entry(s, i) is Some {
        let (id, j) = sp_entry(s, i)->Some_0;
        let k = sp_ws(s, j);
        if 0 <= k && k < s.len() && s[k] == COMMA {
            let m = sp_ws(s, k + 1);
            if i < m && m <= s.len() {
                lemma_items_plain(s, m);
                if sp_items(s, m) is Some {
                    let (rest, e) = sp_items(s, m)->Some_0;
                    let ids = seq![id] + rest;
                    assert forall|a: int, q: int|
                        0 <= a < ids.len() && 0 <= q < ids[a].len()
                            implies is_plain_byte(ids[a][q]) by {
                        if a > 0 {
                            assert(ids[a] == rest[a - 1]);
                        }
                    }
                }
            }
        }
    }
}

/// Every id of a decoded envelope holds only plain bytes.
proof fn lemma_envelope_plain(s: Seq<u8>)
    ensures
        sp_envelope(s) matches Option::Some(ids) ==> forall|a: int, k: int|
            0 <= a < ids.len() && 0 <= k < ids[a].len() ==> is_plain_byte(ids[a][k]),
{
    let i = sp_ws(s, 0);
    if i < s.len() && s[i] == LBRACE {
        let j = sp_ws(s, i + 1);
        if sp_lit_data(s, j) is Some {
            let k = sp_lit_data(s, j)->Some_0;
            let m = sp_ws(s, k);
            if m < s.len() && s[m] == COLON {
                let p = sp_ws(s, m + 1);
                if p < s.len() && s[p] == LBRACK {
                    let q = sp_ws(s, p + 1);
                    if !(q < s.len() && s[q] == RBRACK) {
                        lemma_items_plain(s, q);
                    }
                }
            }
        }
    }
}

/// In a serialized record standing between `pre` and `suf`, parsing finds
/// exactly that record.
proof fn lemma_entry_round(pre: Seq<u8>, id: Seq<u8>, suf: Seq<u8>)
    requires
        forall|k: int| 0 <= k < id.len() ==> is_plain_byte(id[k]),
    ensures
        sp_entry(pre + spec_ser_entry(id) + suf, pre.len() as int)
            == Option::Some((id, pre.len() + id.len() + 9int)),
{
    let s = pre + spec_ser_entry(id) + suf;
    let i = pre.len() as int;
    let n = id.len() as int;
    let e = spec_ser_entry(id);
    assert(e.len() == n + 9);
    assert forall|k: int| 0 <= k < e.len() implies s[i + k] == e[k] by {
        assert((pre + spec_ser_entry(id))[i + k] == e[k]);
    }
    assert(s[i] == LBRACE);
    assert(s[i + 1] == QUOTE);
    assert(sp_ws(s, i + 1) == i + 1);
    assert(s[i + 2] == 0x69 && s[i + 3] == 0x64 && s[i + 4] == QUOTE);
    assert(sp_lit_id(s, i + 1) == Option::Some(i + 5));
    assert(s[i + 5] == COLON);
    assert(sp_ws(s, i + 5) == i + 5);
    assert(s[i + 6] == QUOTE);
    assert(sp_ws(s, i + 6) == i + 6);
    assert forall|k: int| 0 <= k < n implies s[i + 7 + k] == id[k] by {
        assert(e[7 + k] == id[k]);
    }
    assert(s[i + 7 + n] == QUOTE) by {
        assert(e[7 + n] == QUOTE);
    }
    lemma_str_body_run(s, i + 7, i + 7 + n);
    assert(s.subrange(i + 7, i + 7 + n) =~= id);
    assert(sp_string(s, i + 6) == Option::Some((id, i + 8 + n)));
    assert(s[i + 8 + n] == RBRACE) by {
        assert(e[8 + n] == RBRACE);
    }
    assert(sp_ws(s, i + 8 + n) == i + 8 + n);
}

/// In a serialized record list standing between `pre` and `suf`, where `suf`
/// opens with a byte that is neither whitespace nor a comma, parsing finds
/// exactly those records.
#[verifier::rlimit(60)]
proof fn lemma_items_round(pre: Seq<u8>, ids: Seq<Seq<u8>>, suf: Seq<u8>)
    requires
        ids.len() >= 1,
        forall|a: int, k: int| 0 <= a < ids.len() && 0 <= k < ids[a].len()
            ==> is_plain_byte(ids[a][k]),
        suf.len() >= 1,
        !is_ws(suf[0]),
        suf[0] != COMMA,
    ensures
        sp_items(pre + spec_ser_entries(ids) + suf, pre.len() as int)
            == Option::Some((ids, pre.len() + spec_ser_entries(ids).len() as int)),
    decreases ids.len(),
{
    let s = pre + spec_ser_entries(ids) + suf;
    let i = pre.len() as int;
    let id = ids[0];
    let n = id.len() as int;
    if ids.len() == 1 {
        assert(spec_ser_entries(ids) == spec_ser_entry(id));
        lemma_entry_round(pre, id, suf);
        let j = i + n + 9;
        assert(s[j] == suf[0]) by {
            assert(j - pre.len() - spec_ser_entries(ids).len() == 0);
        }
        assert(sp_ws(s, j) == j);
        assert(seq![id] =~= ids);
    } else {
        let rest = ids.drop_first();
        assert(spec_ser_entries(ids)
            == spec_ser_entry(id) + seq![COMMA] + spec_ser_entries(rest));
        let mid = pre + spec_ser_entry(id) + seq![COMMA];
        assert(s =~= mid + spec_ser_entries(rest) + suf);
        assert(s =~= pre + spec_ser_entry(id) + (seq![COMMA] + spec_ser_entries(rest) + suf));
        lemma_entry_round(pre, id, seq![COMMA] + spec_ser_entries(rest) + suf);
        let j = i + n + 9;
        assert(s[j] == COMMA) by {
            assert((seq![COMMA] + spec_ser_entries(rest) + suf)[0] == COMMA);
        }
        assert(sp_ws(s, j) == j);
        assert(spec_ser_entries(rest)[0] == LBRACE) by {
            assert(spec_ser_entries(rest)
                == if rest.len() == 1 {
                    spec_ser_entry(rest[0])
                } else {
                    spec_ser_entry(rest[0]) + seq![COMMA] + spec_ser_entries(rest.drop_first())
                });
            assert(spec_ser_entry(rest[0])[0] == LBRACE);
        }
        assert(s[j + 1] == LBRACE) by {
            assert(mid.len() == j + 1);
            assert((spec_ser_entries(rest) + suf)[0] == LBRACE);
        }
        assert(sp_ws(s, j + 1) == j + 1);
        lemma_items_round(mid, rest, suf);
        assert(sp_items(s, j + 1)
            == Option::Some((rest, mid.len() + spec_ser_entries(rest).len() as int)));
        assert(seq![id] + rest =~= ids);
        assert(mid.len() + spec_ser_entries(rest).len()
            == pre.len() + spec_ser_entries(ids).len());
    }
}

/// Parsing a serialized envelope yields exactly the records it was built
/// from, provided their ids hold only plain bytes.
proof fn lemma_ser_parse(ids: Seq<Seq<u8>>)
    requires
        forall|a: int, k: int| 0 <= a < ids.len() && 0 <= k < ids[a].len()
            ==> is_plain_byte(ids[a][k]),
    ensures
        sp_envelope(spec_ser_envelope(ids)) == Option::Some(ids),
{
    let s = spec_ser_envelope(ids);
    let hdr = seq![LBRACE, QUOTE, 0x64u8, 0x61u8, 0x74u8, 0x61u8, QUOTE, COLON, LBRACK];
    let tail = seq![RBRACK, RBRACE];
    let body = spec_ser_entries(ids);
    let n = body.len() as int;
    assert(s == hdr + body + tail);
    assert(s.len() == n + 11);
    assert forall|k: int| 0 <= k < 9 implies s[k] == hdr[k] by {
        assert((hdr + body)[k] == hdr[k]);
    }
    assert(sp_ws(s, 0) == 0);
    assert(sp_ws(s, 1) == 1);
    assert(sp_lit_data(s, 1) == Option::Some(7int));
    assert(sp_ws(s, 7) == 7);
    assert(sp_ws(s, 8) == 8);
    assert(s[9 + n] == RBRACK && s[10 + n] == RBRACE) by {
        assert(s[9 + n] == tail[0]);
        assert(s[10 + n] == tail[1]);
    }
    if ids.len() == 0 {
        assert(n == 0);
        assert(s[9] == RBRACK);
        assert(sp_ws(s, 9) == 9);
        assert(sp_ws(s, 10) == 10);
        assert(sp_ws(s, 11) == 11);
        assert(sp_close(s, 10));
    } else {
        assert(body[0] == LBRACE) by {
            assert(body == if ids.len() == 1 {
                spec_ser_entry(ids[0])
            } else {
                spec_ser_entry(ids[0]) + seq![COMMA] + spec_ser_entries(ids.drop_first())
            });
            assert(spec_ser_entry(ids[0])[0] == LBRACE);
        }
        assert(s[9] == LBRACE) by {
            assert((body + tail)[0] == LBRACE);
        }
        assert(sp_ws(s, 9) == 9);
        assert(s =~= hdr + body + tail);
        lemma_items_round(hdr, ids, tail);
        assert(sp_items(s, 9) == Option::Some((ids, 9 + n)));
        assert(sp_ws(s, 9 + n) == 9 + n);
        assert(sp_ws(s, 10 + n) == 10 + n);
        assert(sp_ws(s, 11 + n) == 11 + n);
        assert(sp_close(s, 10 + n));
    }
}

/// What the gateway re-emits for a decoded body is itself in the expected
/// schema and decodes to the very same records: relaying preserves the
/// body's structure exactly.
pub proof fn lemma_relay_round_trip(body: Seq<u8>)
    ensures
        sp_envelope(body) matches Option::Some(ids)
            ==> sp_envelope(spec_ser_envelope(ids)) == Option::Some(ids),
{
    if sp_envelope(body) is Some {
        lemma_envelope_plain(body);
        lemma_ser_parse(sp_envelope(body)->Some_0);
    }
}


} // verus!
