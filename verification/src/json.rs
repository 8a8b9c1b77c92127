//! The textual format of the snapshot store and of the summarization
//! exchange: a small JSON document type, a canonical encoder, and a parser,
//! with a proof that parsing inverts encoding.

use vstd::prelude::*;

verus! {

/// One field of a JSON object.
pub struct JField {
    pub key: String,
    pub val: Json,
}

/// A JSON document. The formats this library writes carry only unsigned
/// integers, held in `Num`; any other number read from outside (signed,
/// fractional, exponential, or too large) is carried opaquely as its text
/// in `NumOther`.
pub enum Json {
    Null,
    Bool(bool),
    Num(u64),
    NumOther(String),
    Str(String),
    Arr(Vec<Json>),
    Obj(Vec<JField>),
}

/// The mathematical shape of a JSON document.
pub ghost enum JsonV {
    Null,
    Bool(bool),
    Num(u64),
    NumOther(Seq<char>),
    Str(Seq<char>),
    Arr(Seq<JsonV>),
    Obj(Seq<(Seq<char>, JsonV)>),
}

pub open spec fn view_json(j: Json) -> JsonV
    decreases j,
{
    match j {
        Json::Null => JsonV::Null,
        Json::Bool(b) => JsonV::Bool(b),
        Json::Num(n) => JsonV::Num(n),
        Json::NumOther(t) => JsonV::NumOther(t@),
        Json::Str(s) => JsonV::Str(s@),
        Json::Arr(items) => JsonV::Arr(view_items(items@)),
        Json::Obj(fields) => JsonV::Obj(view_fields(fields@)),
    }
}

pub open spec fn view_items(items: Seq<Json>) -> Seq<JsonV>
    decreases items,
{
    if items.len() == 0 {
        Seq::empty()
    } else {
        seq![view_json(items[0])] + view_items(items.skip(1))
    }
}

pub open spec fn view_fields(fields: Seq<JField>) -> Seq<(Seq<char>, JsonV)>
    decreases fields,
{
    if fields.len() == 0 {
        Seq::empty()
    } else {
        seq![(fields[0].key@, view_json(fields[0].val))] + view_fields(fields.skip(1))
    }
}

/// The decimal digit character for `d` (`d < 10`).
pub open spec fn digit_char(d: nat) -> char {
    if d == 0 {
        '0'
    } else if d == 1 {
        '1'
    } else if d == 2 {
        '2'
    } else if d == 3 {
        '3'
    } else if d == 4 {
        '4'
    } else if d == 5 {
        '5'
    } else if d == 6 {
        '6'
    } else if d == 7 {
        '7'
    } else if d == 8 {
        '8'
    } else {
        '9'
    }
}

/// The lower-case hexadecimal digit character for `d` (`d < 16`).
pub open spec fn hex_char(d: nat) -> char {
    if d < 10 {
        digit_char(d)
    } else if d == 10 {
        'a'
    } else if d == 11 {
        'b'
    } else if d == 12 {
        'c'
    } else if d == 13 {
        'd'
    } else if d == 14 {
        'e'
    } else {
        'f'
    }
}

/// The decimal digits of `n`, most significant first, with no leading zero.
pub open spec fn dec_digits(n: nat) -> Seq<char>
    decreases n,
{
    if n < 10 {
        seq![digit_char(n)]
    } else {
        dec_digits(n / 10).push(digit_char(n % 10))
    }
}

/// How one character appears inside a JSON string literal.
pub open spec fn esc_char(c: char) -> Seq<char> {
    if c == '"' {
        seq!['\\', '"']
    } else if c == '\\' {
        seq!['\\', '\\']
    } else if c == '\n' {
        seq!['\\', 'n']
    } else if c == '\r' {
        seq!['\\', 'r']
    } else if c == '\t' {
        seq!['\\', 't']
    } else if (c as u32) < 32 {
        seq!['\\', 'u', '0', '0', hex_char((c as u32 / 16) as nat), hex_char(
            (c as u32 % 16) as nat,
        )]
    } else {
        seq![c]
    }
}

/// The body of a JSON string literal for the text `s`.
pub open spec fn esc_str(s: Seq<char>) -> Seq<char>
    decreases s,
{
    if s.len() == 0 {
        Seq::empty()
    } else {
        esc_char(s[0]) + esc_str(s.skip(1))
    }
}

/// A complete JSON string literal for the text `s`.
pub open spec fn enc_string(s: Seq<char>) -> Seq<char> {
    seq!['"'] + esc_str(s) + seq!['"']
}

/// The canonical encoding of a document: no whitespace, fields in the
/// order given, integers in decimal.
pub open spec fn enc_json(v: JsonV) -> Seq<char>
    decreases v,
{
    match v {
        JsonV::Null => seq!['n', 'u', 'l', 'l'],
        JsonV::Bool(b) => if b {
            seq!['t', 'r', 'u', 'e']
        } else {
            seq!['f', 'a', 'l', 's', 'e']
        },
        JsonV::Num(n) => dec_digits(n as nat),
        JsonV::NumOther(t) => t,
        JsonV::Str(s) => enc_string(s),
        JsonV::Arr(items) => seq!['['] + enc_items(items) + seq![']'],
        JsonV::Obj(fields) => seq!['{'] + enc_fields(fields) + seq!['}'],
    }
}

pub open spec fn enc_items(items: Seq<JsonV>) -> Seq<char>
    decreases items,
{
    if items.len() == 0 {
        Seq::empty()
    } else if items.len() == 1 {
        enc_json(items[0])
    } else {
        enc_json(items[0]) + seq![','] + enc_items(items.skip(1))
    }
}

pub open spec fn enc_field(f: (Seq<char>, JsonV)) -> Seq<char>
    decreases f,
{
    enc_string(f.0) + seq![':'] + enc_json(f.1)
}

pub open spec fn enc_fields(fields: Seq<(Seq<char>, JsonV)>) -> Seq<char>
    decreases fields,
{
    if fields.len() == 0 {
        Seq::empty()
    } else if fields.len() == 1 {
        enc_field(fields[0])
    } else {
        enc_field(fields[0]) + seq![','] + enc_fields(fields.skip(1))
    }
}

pub broadcast proof fn lemma_view_items_len(items: Seq<Json>)
    ensures
        #[trigger] view_items(items).len() == items.len(),
    decreases items,
{
    if items.len() > 0 {
        lemma_view_items_len(items.skip(1));
    }
}

pub broadcast proof fn lemma_view_fields_len(fields: Seq<JField>)
    ensures
        #[trigger] view_fields(fields).len() == fields.len(),
    decreases fields,
{
    if fields.len() > 0 {
        lemma_view_fields_len(fields.skip(1));
    }
}

pub broadcast proof fn lemma_view_items_index(items: Seq<Json>, i: int)
    requires
        0 <= i < items.len(),
    ensures
        #[trigger] view_items(items)[i] == view_json(items[i]),
    decreases items,
{
    lemma_view_items_len(items);
    if i > 0 {
        lemma_view_items_index(items.skip(1), i - 1);
        assert(items.skip(1)[i - 1] == items[i]);
    }
}

pub broadcast proof fn lemma_view_fields_index(fields: Seq<JField>, i: int)
    requires
        0 <= i < fields.len(),
    ensures
        #[trigger] view_fields(fields)[i] == (fields[i].key@, view_json(fields[i].val)),
    decreases fields,
{
    lemma_view_fields_len(fields);
    if i > 0 {
        lemma_view_fields_index(fields.skip(1), i - 1);
        assert(fields.skip(1)[i - 1] == fields[i]);
    }
}

fn push_digit(out: &mut String, d: u64)
    requires
        d < 10,
    ensures
        final(out)@ == old(out)@.push(digit_char(d as nat)),
{
    if d == 0 {
        out.push('0');
    } else if d == 1 {
        out.push('1');
    } else if d == 2 {
        out.push('2');
    } else if d == 3 {
        out.push('3');
    } else if d == 4 {
        out.push('4');
    } else if d == 5 {
        out.push('5');
    } else if d == 6 {
        out.push('6');
    } else if d == 7 {
        out.push('7');
    } else if d == 8 {
        out.push('8');
    } else {
        out.push('9');
    }
}

fn push_hex(out: &mut String, d: u32)
    requires
        d < 16,
    ensures
        final(out)@ == old(out)@.push(hex_char(d as nat)),
{
    if d < 10 {
        push_digit(out, d as u64);
    } else if d == 10 {
        out.push('a');
    } else if d == 11 {
        out.push('b');
    } else if d == 12 {
        out.push('c');
    } else if d == 13 {
        out.push('d');
    } else if d == 14 {
        out.push('e');
    } else {
        out.push('f');
    }
}

/// Appends the decimal digits of `n`.
pub fn push_u64(out: &mut String, n: u64)
    ensures
        final(out)@ == old(out)@ + dec_digits(n as nat),
    decreases n,
{
    if n < 10 {
        push_digit(out, n);
        proof {
            assert(old(out)@.push(digit_char(n as nat)) =~= old(out)@ + dec_digits(n as nat));
        }
    } else {
        push_u64(out, n / 10);
        push_digit(out, n % 10);
        proof {
            assert((old(out)@ + dec_digits((n / 10) as nat)).push(digit_char((n % 10) as nat))
                =~= old(out)@ + dec_digits(n as nat));
        }
    }
}

fn push_esc_char(out: &mut String, c: char)
    ensures
        final(out)@ == old(out)@ + esc_char(c),
{
    if c == '"' {
        out.push('\\');
        out.push('"');
    } else if c == '\\' {
        out.push('\\');
        out.push('\\');
    } else if c == '\n' {
        out.push('\\');
        out.push('n');
    } else if c == '\r' {
        out.push('\\');
        out.push('r');
    } else if c == '\t' {
        out.push('\\');
        out.push('t');
    } else if (c as u32) < 32 {
        out.push('\\');
        out.push('u');
        out.push('0');
        out.push('0');
        push_hex(out, (c as u32) / 16);
        push_hex(out, (c as u32) % 16);
    } else {
        out.push(c);
    }
    proof {
        assert(final(out)@ =~= old(out)@ + esc_char(c));
    }
}

fn push_esc_rest(out: &mut String, s: &str, i: usize, n: usize)
    requires
        n == s@.len(),
        i <= n,
    ensures
        final(out)@ == old(out)@ + esc_str(s@.skip(i as int)),
    decreases n - i,
{
    if i < n {
        let c = s.get_char(i);
        push_esc_char(out, c);
        push_esc_rest(out, s, i + 1, n);
        proof {
            assert(s@.skip(i as int)[0] == s@[i as int]);
            assert(s@.skip(i as int).skip(1) =~= s@.skip(i + 1 as int));
            assert((old(out)@ + esc_char(c)) + esc_str(s@.skip(i + 1 as int)) =~= old(out)@
                + esc_str(s@.skip(i as int)));
        }
    } else {
        proof {
            assert(s@.skip(i as int) =~= Seq::<char>::empty());
            assert(old(out)@ + esc_str(s@.skip(i as int)) =~= old(out)@);
        }
    }
}

/// Appends the JSON string literal for `s`.
pub fn push_string_lit(out: &mut String, s: &str)
    ensures
        final(out)@ == old(out)@ + enc_string(s@),
{
    let n = s.unicode_len();
    out.push('"');
    push_esc_rest(out, s, 0, n);
    out.push('"');
    proof {
        assert(s@.skip(0) =~= s@);
        assert(final(out)@ =~= old(out)@ + enc_string(s@));
    }
}

/// Appends the canonical encoding of `v`.
pub fn push_json(out: &mut String, v: &Json)
    ensures
        final(out)@ == old(out)@ + enc_json(view_json(*v)),
    decreases *v,
{
    match v {
        Json::Null => {
            out.push('n');
            out.push('u');
            out.push('l');
            out.push('l');
            proof {
                assert(final(out)@ =~= old(out)@ + enc_json(view_json(*v)));
            }
        },
        Json::Bool(b) => {
            if *b {
                out.push('t');
                out.push('r');
                out.push('u');
                out.push('e');
            } else {
                out.push('f');
                out.push('a');
                out.push('l');
                out.push('s');
                out.push('e');
            }
            proof {
                assert(final(out)@ =~= old(out)@ + enc_json(view_json(*v)));
            }
        },
        Json::Num(n) => {
            push_u64(out, *n);
        },
        Json::NumOther(t) => {
            out.append(t.as_str());
        },
        Json::Str(s) => {
            push_string_lit(out, s.as_str());
        },
        Json::Arr(items) => {
            out.push('[');
            proof {
                assert(decreases_to!(*v => *items));
                assert(decreases_to!(*items => items@));
                assert(items@.skip(0) == items@) by {
                    assert(items@.skip(0) =~= items@);
                }
            }
            push_items(out, items, 0);
            out.push(']');
            proof {
                assert(items@.skip(0) =~= items@);
                assert(final(out)@ =~= old(out)@ + enc_json(view_json(*v)));
            }
        },
        Json::Obj(fields) => {
            out.push('{');
            proof {
                assert(decreases_to!(*v => *fields));
                assert(decreases_to!(*fields => fields@));
                assert(fields@.skip(0) == fields@) by {
                    assert(fields@.skip(0) =~= fields@);
                }
            }
            push_fields(out, fields, 0);
            out.push('}');
            proof {
                assert(fields@.skip(0) =~= fields@);
                assert(final(out)@ =~= old(out)@ + enc_json(view_json(*v)));
            }
        },
    }
}

fn push_items(out: &mut String, items: &Vec<Json>, i: usize)
    requires
        i <= items@.len(),
    ensures
        final(out)@ == old(out)@ + enc_items(view_items(items@.skip(i as int))),
    decreases items@.skip(i as int),
{
    broadcast use lemma_view_items_len;

    if i < items.len() {
        proof {
            assert(items@.skip(i as int)[0] == items@[i as int]);
        }
        push_json(out, &items[i]);
        if i + 1 < items.len() {
            out.push(',');
        }
        proof {
            assert(items@.skip(i + 1 as int) == items@.skip(i as int).subrange(
                1,
                items@.skip(i as int).len() as int,
            )) by {
                assert(items@.skip(i + 1 as int) =~= items@.skip(i as int).subrange(
                    1,
                    items@.skip(i as int).len() as int,
                ));
            }
        }
        push_items(out, items, i + 1);
        proof {
            let rest = items@.skip(i as int);
            assert(view_items(rest)[0] == view_json(items@[i as int]));
            assert(view_items(rest).skip(1) =~= view_items(rest.skip(1)));
            assert(final(out)@ =~= old(out)@ + enc_items(view_items(rest)));
        }
    } else {
        proof {
            assert(items@.skip(i as int) =~= Seq::<Json>::empty());
            assert(old(out)@ + enc_items(view_items(items@.skip(i as int))) =~= old(out)@);
        }
    }
}

fn push_fields(out: &mut String, fields: &Vec<JField>, i: usize)
    requires
        i <= fields@.len(),
    ensures
        final(out)@ == old(out)@ + enc_fields(view_fields(fields@.skip(i as int))),
    decreases fields@.skip(i as int),
{
    broadcast use lemma_view_fields_len;

    if i < fields.len() {
        proof {
            assert(fields@.skip(i as int)[0] == fields@[i as int]);
        }
        push_string_lit(out, fields[i].key.as_str());
        out.push(':');
        push_json(out, &fields[i].val);
        if i + 1 < fields.len() {
            out.push(',');
        }
        proof {
            assert(fields@.skip(i + 1 as int) == fields@.skip(i as int).subrange(
                1,
                fields@.skip(i as int).len() as int,
            )) by {
                assert(fields@.skip(i + 1 as int) =~= fields@.skip(i as int).subrange(
                    1,
                    fields@.skip(i as int).len() as int,
                ));
            }
        }
        push_fields(out, fields, i + 1);
        proof {
            let rest = fields@.skip(i as int);
            let f0 = (fields@[i as int].key@, view_json(fields@[i as int].val));
            assert(view_fields(rest)[0] == f0);
            assert(view_fields(rest).skip(1) =~= view_fields(rest.skip(1)));
            assert(enc_field(f0) =~= enc_string(f0.0) + seq![':'] + enc_json(f0.1));
            if i + 1 < fields@.len() {
                assert(enc_fields(view_fields(rest)) =~= enc_field(f0) + seq![','] + enc_fields(
                    view_fields(rest.skip(1)),
                ));
            } else {
                assert(rest.len() == 1);
                assert(enc_fields(view_fields(rest)) =~= enc_field(f0));
                assert(rest.skip(1) =~= Seq::<JField>::empty());
                assert(enc_fields(view_fields(rest.skip(1))) =~= Seq::<char>::empty());
            }
            assert(final(out)@ =~= old(out)@ + enc_fields(view_fields(rest)));
        }
    } else {
        proof {
            assert(fields@.skip(i as int) =~= Seq::<JField>::empty());
            assert(old(out)@ + enc_fields(view_fields(fields@.skip(i as int))) =~= old(out)@);
        }
    }
}

/// The canonical text of `v`.
pub fn write_json(v: &Json) -> (r: String)
    ensures
        r@ == enc_json(view_json(*v)),
{
    let mut out = String::new();
    push_json(&mut out, v);
    proof {
        assert(Seq::<char>::empty() + enc_json(view_json(*v)) =~= enc_json(view_json(*v)));
    }
    out
}

/// The whitespace characters that JSON allows between tokens.
pub open spec fn is_json_ws(c: char) -> bool {
    c == ' ' || c == '\t' || c == '\n' || c == '\r'
}

pub open spec fn is_digit(c: char) -> bool {
    48 <= c as u32 && c as u32 <= 57
}

pub open spec fn digit_val(c: char) -> nat {
    (c as u32 - 48) as nat
}

/// The input with its leading whitespace removed.
pub open spec fn p_ws(s: Seq<char>) -> Seq<char>
    decreases s.len(),
{
    if s.len() > 0 && is_json_ws(s[0]) {
        p_ws(s.skip(1))
    } else {
        s
    }
}

/// Parses a string-literal body (the opening quote already consumed):
/// the decoded text and the input after the closing quote.
pub open spec fn p_str_body(s: Seq<char>) -> Option<(Seq<char>, Seq<char>)>
    decreases s.len(),
{
    if s.len() == 0 {
        None
    } else if s[0] == '"' {
        Some((Seq::empty(), s.skip(1)))
    } else if s[0] == '\\' {
        if s.len() < 2 {
            None
        } else {
            let e = s[1];
            if e == '"' || e == '\\' || e == 'n' || e == 'r' || e == 't' {
                let c = if e == '"' {
                    '"'
                } else if e == '\\' {
                    '\\'
                } else if e == 'n' {
                    '\n'
                } else if e == 'r' {
                    '\r'
                } else {
                    '\t'
                };
                match p_str_body(s.skip(2)) {
                    Some((cs, rest)) => Some((seq![c] + cs, rest)),
                    None => None,
                }
            } else if e == 'u' {
                if s.len() >= 6 && s[2] == '0' && s[3] == '0' && is_hex(s[4]) && is_hex(s[5]) {
                    let c = (hex_val(s[4]) * 16 + hex_val(s[5])) as char;
                    match p_str_body(s.skip(6)) {
                        Some((cs, rest)) => Some((seq![c] + cs, rest)),
                        None => None,
                    }
                } else {
                    None
                }
            } else {
                None
            }
        }
    } else {
        match p_str_body(s.skip(1)) {
            Some((cs, rest)) => Some((seq![s[0]] + cs, rest)),
            None => None,
        }
    }
}

pub open spec fn is_hex(c: char) -> bool {
    is_digit(c) || (97 <= c as u32 && c as u32 <= 102)
}

pub open spec fn hex_val(c: char) -> nat {
    if is_digit(c) {
        digit_val(c)
    } else {
        (c as u32 - 87) as nat
    }
}

/// The number of leading decimal-digit characters.
pub open spec fn digits_len(s: Seq<char>) -> nat
    decreases s.len(),
{
    if s.len() > 0 && is_digit(s[0]) {
        (1 + digits_len(s.skip(1))) as nat
    } else {
        0
    }
}

/// The value of a sequence of decimal digits, most significant first.
pub open spec fn num_val(ds: Seq<char>) -> nat
    decreases ds.len(),
{
    if ds.len() == 0 {
        0
    } else {
        num_val(ds.take(ds.len() - 1)) * 10 + digit_val(ds.last())
    }
}

/// The length of a fraction part at the head of the input: zero when none
/// begins, nothing when a point begins one without digits.
pub open spec fn frac_len(s: Seq<char>) -> Option<nat> {
    if s.len() > 0 && s[0] == '.' {
        let d = digits_len(s.skip(1));
        if d == 0 {
            None
        } else {
            Some((1 + d) as nat)
        }
    } else {
        Some(0)
    }
}

/// The length of an exponent part at the head of the input: zero when none
/// begins, nothing when a marker begins one without digits.
pub open spec fn exp_len(s: Seq<char>) -> Option<nat> {
    if s.len() > 0 && (s[0] == 'e' || s[0] == 'E') {
        let sg: nat = if s.len() > 1 && (s[1] == '+' || s[1] == '-') {
            1
        } else {
            0
        };
        let d = digits_len(s.skip(1 + sg as int));
        if d == 0 {
            None
        } else {
            Some((1 + sg + d) as nat)
        }
    } else {
        Some(0)
    }
}

/// The length of the number token at the head of the input, per the JSON
/// grammar: an optional sign, an integer part without leading zeros, an
/// optional fraction and an optional exponent. Nothing when no valid token
/// starts there.
pub open spec fn num_token_len(s: Seq<char>) -> Option<nat> {
    let neg: nat = if s.len() > 0 && s[0] == '-' {
        1
    } else {
        0
    };
    let s1 = s.skip(neg as int);
    if s1.len() == 0 || !is_digit(s1[0]) {
        None
    } else {
        let ip: nat = if s1[0] == '0' {
            1
        } else {
            digits_len(s1)
        };
        let s2 = s1.skip(ip as int);
        match frac_len(s2) {
            None => None,
            Some(fr) => {
                let s3 = s2.skip(fr as int);
                match exp_len(s3) {
                    None => None,
                    Some(ex) => Some((neg + ip + fr + ex) as nat),
                }
            },
        }
    }
}

/// Parses a number token at the head of the input. A token that is plain
/// digits and fits in a `u64` becomes `Num`; every other token is carried
/// opaquely as its text.
pub open spec fn p_number(s: Seq<char>) -> Option<(JsonV, Seq<char>)> {
    match num_token_len(s) {
        None => None,
        Some(total) => {
            let tok = s.take(total as int);
            let rest = s.skip(total as int);
            if digits_len(tok) == tok.len() && num_val(tok) <= u64::MAX {
                Some((JsonV::Num(num_val(tok) as u64), rest))
            } else {
                Some((JsonV::NumOther(tok), rest))
            }
        },
    }
}

/// A number text that parses back as itself with nothing left over: what
/// a well-formed `NumOther` may hold.
pub open spec fn valid_numother(t: Seq<char>) -> bool {
    p_number(t) == Some((JsonV::NumOther(t), Seq::<char>::empty()))
}

/// Well-formedness of a document: every opaque number text is one the
/// parser reads back as itself. The documents this library writes carry no
/// opaque numbers, so they are well formed outright.
pub open spec fn wf_json(v: JsonV) -> bool
    decreases v,
{
    match v {
        JsonV::NumOther(t) => valid_numother(t),
        JsonV::Arr(items) => forall|i: int| 0 <= i < items.len() ==> wf_json(#[trigger] items[i]),
        JsonV::Obj(fields) => forall|i: int|
            0 <= i < fields.len() ==> wf_json((#[trigger] fields[i]).1),
        _ => true,
    }
}

/// What may follow an encoded number without extending its token.
pub open spec fn num_boundary(rest: Seq<char>) -> bool {
    rest.len() == 0 || (!is_digit(rest[0]) && rest[0] != '.' && rest[0] != 'e' && rest[0] != 'E')
}

/// Parses one JSON value after optional whitespace: the value and the rest
/// of the input.
pub open spec fn p_value(s: Seq<char>) -> Option<(JsonV, Seq<char>)>
    decreases s.len(), 1int,
{
    let t = p_ws(s);
    if t.len() == 0 {
        None
    } else if t[0] == 'n' {
        if t.len() >= 4 && t[1] == 'u' && t[2] == 'l' && t[3] == 'l' {
            Some((JsonV::Null, t.skip(4)))
        } else {
            None
        }
    } else if t[0] == 't' {
        if t.len() >= 4 && t[1] == 'r' && t[2] == 'u' && t[3] == 'e' {
            Some((JsonV::Bool(true), t.skip(4)))
        } else {
            None
        }
    } else if t[0] == 'f' {
        if t.len() >= 5 && t[1] == 'a' && t[2] == 'l' && t[3] == 's' && t[4] == 'e' {
            Some((JsonV::Bool(false), t.skip(5)))
        } else {
            None
        }
    } else if t[0] == '"' {
        match p_str_body(t.skip(1)) {
            Some((cs, rest)) => Some((JsonV::Str(cs), rest)),
            None => None,
        }
    } else if is_digit(t[0]) || t[0] == '-' {
        p_number(t)
    } else if t[0] == '[' {
        let u = p_ws(t.skip(1));
        if u.len() > 0 && u[0] == ']' {
            Some((JsonV::Arr(Seq::empty()), u.skip(1)))
        } else if t.skip(1).len() < s.len() {
            match p_items(t.skip(1)) {
                Some((vs, rest)) => Some((JsonV::Arr(vs), rest)),
                None => None,
            }
        } else {
            None
        }
    } else if t[0] == '{' {
        let u = p_ws(t.skip(1));
        if u.len() > 0 && u[0] == '}' {
            Some((JsonV::Obj(Seq::empty()), u.skip(1)))
        } else if t.skip(1).len() < s.len() {
            match p_fields(t.skip(1)) {
                Some((fs, rest)) => Some((JsonV::Obj(fs), rest)),
                None => None,
            }
        } else {
            None
        }
    } else {
        None
    }
}

/// Parses one or more comma-separated values and the closing bracket.
pub open spec fn p_items(s: Seq<char>) -> Option<(Seq<JsonV>, Seq<char>)>
    decreases s.len(), 2int,
{
    match p_value(s) {
        None => None,
        Some((v, r)) => {
            let r1 = p_ws(r);
            if r1.len() == 0 {
                None
            } else if r1[0] == ']' {
                Some((seq![v], r1.skip(1)))
            } else if r1[0] == ',' && r1.skip(1).len() < s.len() {
                match p_items(r1.skip(1)) {
                    Some((vs, rest)) => Some((seq![v] + vs, rest)),
                    None => None,
                }
            } else {
                None
            }
        },
    }
}

/// Parses one or more comma-separated object fields and the closing brace.
pub open spec fn p_fields(s: Seq<char>) -> Option<(Seq<(Seq<char>, JsonV)>, Seq<char>)>
    decreases s.len(), 2int,
{
    let t = p_ws(s);
    if t.len() == 0 || t[0] != '"' {
        None
    } else {
        match p_str_body(t.skip(1)) {
            None => None,
            Some((key, r)) => {
                let r1 = p_ws(r);
                if r1.len() == 0 || r1[0] != ':' {
                    None
                } else if r1.skip(1).len() < s.len() {
                    match p_value(r1.skip(1)) {
                        None => None,
                        Some((v, r2)) => {
                            let r3 = p_ws(r2);
                            if r3.len() == 0 {
                                None
                            } else if r3[0] == '}' {
                                Some((seq![(key, v)], r3.skip(1)))
                            } else if r3[0] == ',' && r3.skip(1).len() < s.len() {
                                match p_fields(r3.skip(1)) {
                                    Some((fs, rest)) => Some((seq![(key, v)] + fs, rest)),
                                    None => None,
                                }
                            } else {
                                None
                            }
                        },
                    }
                } else {
                    None
                }
            },
        }
    }
}

proof fn lemma_digits_len(s: Seq<char>)
    ensures
        digits_len(s) <= s.len(),
        forall|m: int| 0 <= m < digits_len(s) ==> is_digit(s[m]),
        digits_len(s) < s.len() ==> !is_digit(s[digits_len(s) as int]),
    decreases s.len(),
{
    if s.len() > 0 && is_digit(s[0]) {
        lemma_digits_len(s.skip(1));
        assert forall|m: int| 0 <= m < digits_len(s) implies is_digit(s[m]) by {
            if m > 0 {
                assert(s.skip(1)[m - 1] == s[m]);
            }
        }
        if digits_len(s) < s.len() {
            assert(s.skip(1)[digits_len(s) - 1] == s[digits_len(s) as int]);
        }
    }
}

proof fn lemma_digits_len_lb(s: Seq<char>, m: int)
    requires
        0 <= m <= s.len(),
        forall|p: int| 0 <= p < m ==> is_digit(s[p]),
    ensures
        digits_len(s) >= m,
    decreases m,
{
    if m > 0 {
        assert(is_digit(s[0]));
        assert forall|p: int| 0 <= p < m - 1 implies is_digit(s.skip(1)[p]) by {
            assert(s.skip(1)[p] == s[p + 1]);
        }
        lemma_digits_len_lb(s.skip(1), m - 1);
    }
}

proof fn lemma_num_val_mono(ds: Seq<char>, m: int)
    requires
        0 <= m <= ds.len(),
    ensures
        num_val(ds.take(m)) <= num_val(ds),
    decreases ds.len(),
{
    if m < ds.len() {
        let pre = ds.take(ds.len() - 1);
        assert(num_val(ds) == num_val(pre) * 10 + digit_val(ds.last()));
        assert(num_val(pre) <= num_val(pre) * 10) by (nonlinear_arith)
            requires num_val(pre) >= 0;
        lemma_num_val_mono(pre, m);
        assert(pre.take(m) =~= ds.take(m));
    } else {
        assert(ds.take(m) =~= ds);
    }
}

fn is_digit_x(c: char) -> (r: bool)
    ensures
        r == is_digit(c),
{
    let u = c as u32;
    48 <= u && u <= 57
}

fn is_hex_x(c: char) -> (r: bool)
    ensures
        r == is_hex(c),
{
    let u = c as u32;
    (48 <= u && u <= 57) || (97 <= u && u <= 102)
}

fn digit_val_x(c: char) -> (r: u64)
    requires
        is_digit(c),
    ensures
        r == digit_val(c),
        r < 10,
{
    (c as u32 - 48) as u64
}

fn hex_val_x(c: char) -> (r: u8)
    requires
        is_hex(c),
    ensures
        r == hex_val(c),
        r < 16,
{
    let u = c as u32;
    if u <= 57 {
        (u - 48) as u8
    } else {
        (u - 87) as u8
    }
}

/// The first position at or after `i` whose character is not JSON
/// whitespace.
fn x_ws(v: &Vec<char>, i: usize) -> (j: usize)
    requires
        i <= v@.len(),
    ensures
        i <= j <= v@.len(),
        v@.skip(j as int) == p_ws(v@.skip(i as int)),
    decreases v@.len() - i,
{
    if i < v.len() {
        let c = v[i];
        if c == ' ' || c == '\t' || c == '\n' || c == '\r' {
            proof {
                assert(v@.skip(i as int)[0] == v@[i as int]);
                assert(v@.skip(i as int).skip(1) =~= v@.skip(i + 1 as int));
            }
            return x_ws(v, i + 1);
        }
        proof {
            assert(v@.skip(i as int)[0] == v@[i as int]);
        }
    }
    proof {
        assert(v@.skip(i as int).len() == v@.len() - i);
    }
    i
}

/// Parses a string-literal body starting at `i` (the opening quote already
/// consumed), appending the decoded text to `out`.
fn x_str_body(v: &Vec<char>, i: usize, out: &mut String) -> (r: Option<usize>)
    requires
        i <= v@.len(),
    ensures
        ({
            let s = v@.skip(i as int);
            match (r, p_str_body(s)) {
                (Some(j), Some((cs, rest))) => i <= j <= v@.len() && final(out)@ == old(out)@ + cs
                    && v@.skip(j as int) == rest,
                (None, None) => true,
                _ => false,
            }
        }),
    decreases v@.len() - i,
{
    if i >= v.len() {
        return None;
    }
    let c = v[i];
    proof {
        assert(v@.skip(i as int)[0] == v@[i as int]);
    }
    if c == '"' {
        proof {
            assert(v@.skip(i as int).skip(1) =~= v@.skip(i + 1 as int));
            assert(old(out)@ + Seq::<char>::empty() =~= old(out)@);
        }
        return Some(i + 1);
    }
    if c == '\\' {
        if i + 1 >= v.len() {
            return None;
        }
        let e = v[i + 1];
        proof {
            assert(v@.skip(i as int)[1] == v@[i + 1 as int]);
        }
        if e == '"' || e == '\\' || e == 'n' || e == 'r' || e == 't' {
            let dec: char = if e == '"' {
                '"'
            } else if e == '\\' {
                '\\'
            } else if e == 'n' {
                '\n'
            } else if e == 'r' {
                '\r'
            } else {
                '\t'
            };
            out.push(dec);
            proof {
                assert(v@.skip(i as int).skip(2) =~= v@.skip(i + 2 as int));
            }
            let res = x_str_body(v, i + 2, out);
            match res {
                Some(j) => {
                    proof {
                        let s = v@.skip(i as int);
                        let tail = p_str_body(s.skip(2));
                        assert(final(out)@ =~= old(out)@ + (seq![dec] + tail->Some_0.0));
                    }
                    Some(j)
                },
                None => None,
            }
        } else if e == 'u' {
            if v.len() - i < 6 {
                return None;
            }
            let z2 = v[i + 2];
            let z3 = v[i + 3];
            let h4 = v[i + 4];
            let h5 = v[i + 5];
            proof {
                assert(v@.skip(i as int)[2] == v@[i + 2 as int]);
                assert(v@.skip(i as int)[3] == v@[i + 3 as int]);
                assert(v@.skip(i as int)[4] == v@[i + 4 as int]);
                assert(v@.skip(i as int)[5] == v@[i + 5 as int]);
            }
            if !(z2 == '0' && z3 == '0' && is_hex_x(h4) && is_hex_x(h5)) {
                return None;
            }
            let d1 = hex_val_x(h4);
            let d2 = hex_val_x(h5);
            let code: u8 = d1 * 16 + d2;
            let dec = code as char;
            proof {
                let s = v@.skip(i as int);
                assert(dec == (hex_val(s[4]) * 16 + hex_val(s[5])) as char);
            }
            out.push(dec);
            proof {
                assert(v@.skip(i as int).skip(6) =~= v@.skip(i + 6 as int));
            }
            let res = x_str_body(v, i + 6, out);
            match res {
                Some(j) => {
                    proof {
                        let s = v@.skip(i as int);
                        let tail = p_str_body(s.skip(6));
                        assert(final(out)@ =~= old(out)@ + (seq![dec] + tail->Some_0.0));
                    }
                    Some(j)
                },
                None => None,
            }
        } else {
            None
        }
    } else {
        out.push(c);
        proof {
            assert(v@.skip(i as int).skip(1) =~= v@.skip(i + 1 as int));
        }
        let res = x_str_body(v, i + 1, out);
        match res {
            Some(j) => {
                proof {
                    let s = v@.skip(i as int);
                    let tail = p_str_body(s.skip(1));
                    assert(final(out)@ =~= old(out)@ + (seq![c] + tail->Some_0.0));
                }
                Some(j)
            },
            None => None,
        }
    }
}

/// The first position at or after `from` whose character is not a decimal
/// digit.
fn scan_digits(v: &Vec<char>, from: usize) -> (r: usize)
    requires
        from <= v@.len(),
    ensures
        from <= r <= v@.len(),
        r - from == digits_len(v@.skip(from as int)),
{
    let mut j = from;
    while j < v.len() && is_digit_x(v[j])
        invariant
            from <= j <= v@.len(),
            forall|m: int| from <= m < j ==> is_digit(v@[m]),
        decreases v@.len() - j,
    {
        j += 1;
    }
    proof {
        let su = v@.skip(from as int);
        lemma_digits_len(su);
        assert forall|p: int| 0 <= p < j - from implies is_digit(su[p]) by {
            assert(su[p] == v@[from + p]);
        }
        lemma_digits_len_lb(su, j - from);
        if j < v@.len() {
            assert(su[j - from] == v@[j as int]);
        }
        assert(su.len() == v@.len() - from);
        assert(digits_len(su) == j - from);
    }
    j
}

/// The value of the digit run `v[i..j]`, when it fits.
fn digits_to_u64(v: &Vec<char>, i: usize, j: usize) -> (r: Option<u64>)
    requires
        i <= j <= v@.len(),
        forall|m: int| i <= m < j ==> is_digit(v@[m]),
    ensures
        ({
            let ds = v@.subrange(i as int, j as int);
            match r {
                Some(val) => num_val(ds) == val,
                None => num_val(ds) > u64::MAX,
            }
        }),
{
    let mut val: u64 = 0;
    let mut k = i;
    proof {
        assert(v@.subrange(i as int, i as int) =~= Seq::<char>::empty());
    }
    while k < j
        invariant
            i <= k <= j <= v@.len(),
            forall|m: int| i <= m < j ==> is_digit(v@[m]),
            val == num_val(v@.subrange(i as int, k as int)),
        decreases j - k,
    {
        let d = digit_val_x(v[k]);
        let step = match val.checked_mul(10) {
            Some(x) => x.checked_add(d),
            None => None,
        };
        match step {
            Some(y) => {
                proof {
                    let pre = v@.subrange(i as int, k as int);
                    let cur = v@.subrange(i as int, k + 1 as int);
                    assert(cur.take(cur.len() - 1) =~= pre);
                    assert(cur.last() == v@[k as int]);
                    assert(num_val(cur) == num_val(pre) * 10 + digit_val(v@[k as int]));
                }
                val = y;
                k += 1;
            },
            None => {
                proof {
                    let pre = v@.subrange(i as int, k as int);
                    let cur = v@.subrange(i as int, k + 1 as int);
                    let ds = v@.subrange(i as int, j as int);
                    assert(cur.take(cur.len() - 1) =~= pre);
                    assert(cur.last() == v@[k as int]);
                    assert(num_val(cur) == num_val(pre) * 10 + digit_val(v@[k as int]));
                    assert(num_val(cur) > u64::MAX);
                    lemma_num_val_mono(ds, k - i + 1);
                    assert(ds.take(k - i + 1) =~= cur);
                    assert(num_val(ds) > u64::MAX);
                }
                return None;
            },
        }
    }
    proof {
        assert(v@.subrange(i as int, k as int) =~= v@.subrange(i as int, j as int));
    }
    Some(val)
}

/// The end of the number token at position `i`, when one starts there.
#[verifier::rlimit(100)]
fn lex_number(v: &Vec<char>, i: usize) -> (r: Option<usize>)
    requires
        i <= v@.len(),
    ensures
        ({
            let s = v@.skip(i as int);
            match r {
                Some(j) => i <= j <= v@.len() && num_token_len(s) == Some((j - i) as nat),
                None => num_token_len(s) is None,
            }
        }),
{
    let ghost s = v@.skip(i as int);
    let len = v.len();
    let neg: usize = if i < len && v[i] == '-' {
        1
    } else {
        0
    };
    proof {
        if i < v@.len() {
            assert(s[0] == v@[i as int]);
        }
        assert(s.len() == v@.len() - i);
    }
    let i1 = i + neg;
    proof {
        assert(s.skip(neg as int) =~= v@.skip(i1 as int));
    }
    let ghost s1 = v@.skip(i1 as int);
    if i1 >= len {
        return None;
    }
    proof {
        assert(s1[0] == v@[i1 as int]);
    }
    if !is_digit_x(v[i1]) {
        return None;
    }
    let ip_end: usize;
    if v[i1] == '0' {
        ip_end = i1 + 1;
    } else {
        ip_end = scan_digits(v, i1);
        proof {
            assert(ip_end - i1 == digits_len(s1));
            assert(ip_end > i1) by {
                lemma_digits_len_lb(s1, 1);
            }
        }
    }
    proof {
        assert(s1.skip(ip_end - i1) =~= v@.skip(ip_end as int));
    }
    let ghost s2 = v@.skip(ip_end as int);
    let fr_end: usize;
    if ip_end < len && v[ip_end] == '.' {
        proof {
            assert(s2[0] == v@[ip_end as int]);
            assert(s2.skip(1) =~= v@.skip(ip_end + 1 as int));
        }
        let fd = scan_digits(v, ip_end + 1);
        if fd == ip_end + 1 {
            proof {
                assert(digits_len(s2.skip(1)) == 0);
                assert(frac_len(s2) is None);
            }
            return None;
        }
        fr_end = fd;
        proof {
            assert(digits_len(s2.skip(1)) == fd - (ip_end + 1));
            assert(frac_len(s2) == Some((fr_end - ip_end) as nat));
        }
    } else {
        fr_end = ip_end;
        proof {
            if ip_end < v@.len() {
                assert(s2[0] == v@[ip_end as int]);
            }
            assert(s2.len() == v@.len() - ip_end);
            assert(frac_len(s2) == Some(0nat));
        }
    }
    proof {
        assert(s2.skip(fr_end - ip_end) =~= v@.skip(fr_end as int));
    }
    let ghost s3 = v@.skip(fr_end as int);
    let ex_end: usize;
    if fr_end < len && (v[fr_end] == 'e' || v[fr_end] == 'E') {
        proof {
            assert(s3[0] == v@[fr_end as int]);
        }
        let sg: usize = if fr_end + 1 < len && (v[fr_end + 1] == '+' || v[fr_end + 1] == '-') {
            1
        } else {
            0
        };
        proof {
            if fr_end + 1 < v@.len() {
                assert(s3[1] == v@[fr_end + 1 as int]);
            }
            assert(s3.len() == v@.len() - fr_end);
            assert(s3.skip(1 + sg as int) =~= v@.skip(fr_end + 1 + sg as int));
        }
        let ed = scan_digits(v, fr_end + 1 + sg);
        if ed == fr_end + 1 + sg {
            proof {
                assert(digits_len(s3.skip(1 + sg as int)) == 0);
                assert(exp_len(s3) is None);
            }
            return None;
        }
        ex_end = ed;
        proof {
            assert(digits_len(s3.skip(1 + sg as int)) == ed - (fr_end + 1 + sg));
            assert(exp_len(s3) == Some((ex_end - fr_end) as nat));
        }
    } else {
        ex_end = fr_end;
        proof {
            if fr_end < v@.len() {
                assert(s3[0] == v@[fr_end as int]);
            }
            assert(s3.len() == v@.len() - fr_end);
            assert(exp_len(s3) == Some(0nat));
        }
    }
    Some(ex_end)
}

/// Parses a number token at position `i`.
#[verifier::rlimit(50)]
fn x_number(v: &Vec<char>, i: usize) -> (r: Option<(Json, usize)>)
    requires
        i <= v@.len(),
    ensures
        ({
            let s = v@.skip(i as int);
            match (r, p_number(s)) {
                (Some((jn, j)), Some((jv, rest))) => view_json(jn) == jv && i <= j <= v@.len()
                    && v@.skip(j as int) == rest,
                (None, None) => true,
                _ => false,
            }
        }),
{
    let ghost s = v@.skip(i as int);
    let j = match lex_number(v, i) {
        None => {
            return None;
        },
        Some(j) => j,
    };
    let ghost tok = s.take((j - i) as int);
    proof {
        assert(tok =~= v@.subrange(i as int, j as int));
        assert(s.skip((j - i) as int) =~= v@.skip(j as int));
        lemma_digits_len(s);
        lemma_digits_len(tok);
    }
    let de = scan_digits(v, i);
    if de >= j {
        proof {
            assert forall|p: int| 0 <= p < tok.len() implies is_digit(tok[p]) by {
                assert(tok[p] == s[p]);
            }
            lemma_digits_len_lb(tok, tok.len() as int);
            assert(digits_len(tok) == tok.len());
            assert forall|m: int| i <= m < j implies is_digit(v@[m]) by {
                assert(s[m - i] == v@[m]);
            }
        }
        match digits_to_u64(v, i, j) {
            Some(val) => {
                return Some((Json::Num(val), j));
            },
            None => {
            },
        }
    } else {
        proof {
            let dl = (de - i) as int;
            assert(digits_len(s) == de - i);
            assert forall|p: int| 0 <= p < dl implies is_digit(tok[p]) by {
                assert(tok[p] == s[p]);
            }
            lemma_digits_len_lb(tok, dl);
            assert(tok[dl] == s[dl]);
            assert(!is_digit(s[dl]));
            if digits_len(tok) > dl {
                assert(is_digit(tok[dl]));
            }
            assert(digits_len(tok) < tok.len());
        }
    }
    let mut text = String::new();
    let mut k = i;
    while k < j
        invariant
            i <= k <= j <= v@.len(),
            text@ == v@.subrange(i as int, k as int),
        decreases j - k,
    {
        text.push(v[k]);
        proof {
            assert(v@.subrange(i as int, k as int).push(v@[k as int]) =~= v@.subrange(
                i as int,
                k + 1 as int,
            ));
        }
        k += 1;
    }
    proof {
        assert(text@ == tok);
    }
    Some((Json::NumOther(text), j))
}

/// Parses one JSON value at position `i` after optional whitespace.
fn x_value(v: &Vec<char>, i: usize) -> (r: Option<(Json, usize)>)
    requires
        i <= v@.len(),
    ensures
        ({
            let s = v@.skip(i as int);
            match (r, p_value(s)) {
                (Some((j, k)), Some((jv, rest))) => view_json(j) == jv && i <= k <= v@.len()
                    && v@.skip(k as int) == rest,
                (None, None) => true,
                _ => false,
            }
        }),
    decreases v@.len() - i, 1int,
{
    let ghost s = v@.skip(i as int);
    let t = x_ws(v, i);
    let ghost tt = v@.skip(t as int);
    if t >= v.len() {
        return None;
    }
    let c = v[t];
    proof {
        assert(tt[0] == v@[t as int]);
        assert(tt.len() == v@.len() - t);
    }
    if c == 'n' {
        if v.len() - t >= 4 && v[t + 1] == 'u' && v[t + 2] == 'l' && v[t + 3] == 'l' {
            proof {
                assert(tt[1] == v@[t + 1 as int]);
                assert(tt[2] == v@[t + 2 as int]);
                assert(tt[3] == v@[t + 3 as int]);
                assert(tt.skip(4) =~= v@.skip(t + 4 as int));
            }
            Some((Json::Null, t + 4))
        } else {
            proof {
                if tt.len() >= 4 {
                    assert(tt[1] == v@[t + 1 as int]);
                    assert(tt[2] == v@[t + 2 as int]);
                    assert(tt[3] == v@[t + 3 as int]);
                }
            }
            None
        }
    } else if c == 't' {
        if v.len() - t >= 4 && v[t + 1] == 'r' && v[t + 2] == 'u' && v[t + 3] == 'e' {
            proof {
                assert(tt[1] == v@[t + 1 as int]);
                assert(tt[2] == v@[t + 2 as int]);
                assert(tt[3] == v@[t + 3 as int]);
                assert(tt.skip(4) =~= v@.skip(t + 4 as int));
            }
            Some((Json::Bool(true), t + 4))
        } else {
            proof {
                if tt.len() >= 4 {
                    assert(tt[1] == v@[t + 1 as int]);
                    assert(tt[2] == v@[t + 2 as int]);
                    assert(tt[3] == v@[t + 3 as int]);
                }
            }
            None
        }
    } else if c == 'f' {
        if v.len() - t >= 5 && v[t + 1] == 'a' && v[t + 2] == 'l' && v[t + 3] == 's' && v[t + 4]
            == 'e' {
            proof {
                assert(tt[1] == v@[t + 1 as int]);
                assert(tt[2] == v@[t + 2 as int]);
                assert(tt[3] == v@[t + 3 as int]);
                assert(tt[4] == v@[t + 4 as int]);
                assert(tt.skip(5) =~= v@.skip(t + 5 as int));
            }
            Some((Json::Bool(false), t + 5))
        } else {
            proof {
                if tt.len() >= 5 {
                    assert(tt[1] == v@[t + 1 as int]);
                    assert(tt[2] == v@[t + 2 as int]);
                    assert(tt[3] == v@[t + 3 as int]);
                    assert(tt[4] == v@[t + 4 as int]);
                }
            }
            None
        }
    } else if c == '"' {
        let mut content = String::new();
        proof {
            assert(tt.skip(1) =~= v@.skip(t + 1 as int));
        }
        match x_str_body(v, t + 1, &mut content) {
            Some(j) => {
                proof {
                    let cs = p_str_body(tt.skip(1))->Some_0.0;
                    assert(content@ =~= cs);
                }
                Some((Json::Str(content), j))
            },
            None => None,
        }
    } else if is_digit_x(c) || c == '-' {
        match x_number(v, t) {
            Some((jn, j)) => Some((jn, j)),
            None => None,
        }
    } else if c == '[' {
        let u = x_ws(v, t + 1);
        proof {
            assert(tt.skip(1) =~= v@.skip(t + 1 as int));
            assert(v@.skip(u as int).len() == v@.len() - u);
            if u < v@.len() {
                assert(v@.skip(u as int)[0] == v@[u as int]);
            }
        }
        if u < v.len() && v[u] == ']' {
            proof {
                assert(v@.skip(u as int).skip(1) =~= v@.skip(u + 1 as int));
                assert(view_items(Seq::<Json>::empty()) =~= Seq::<JsonV>::empty());
            }
            Some((Json::Arr(Vec::new()), u + 1))
        } else {
            match x_items(v, t + 1) {
                Some((items, j)) => Some((Json::Arr(items), j)),
                None => None,
            }
        }
    } else if c == '{' {
        let u = x_ws(v, t + 1);
        proof {
            assert(tt.skip(1) =~= v@.skip(t + 1 as int));
            assert(v@.skip(u as int).len() == v@.len() - u);
            if u < v@.len() {
                assert(v@.skip(u as int)[0] == v@[u as int]);
            }
        }
        if u < v.len() && v[u] == '}' {
            proof {
                assert(v@.skip(u as int).skip(1) =~= v@.skip(u + 1 as int));
                assert(view_fields(Seq::<JField>::empty()) =~= Seq::<(Seq<char>, JsonV)>::empty());
            }
            Some((Json::Obj(Vec::new()), u + 1))
        } else {
            match x_fields(v, t + 1) {
                Some((fields, j)) => Some((Json::Obj(fields), j)),
                None => None,
            }
        }
    } else {
        None
    }
}

/// Parses one or more comma-separated values and the closing bracket.
fn x_items(v: &Vec<char>, i: usize) -> (r: Option<(Vec<Json>, usize)>)
    requires
        i <= v@.len(),
    ensures
        ({
            let s = v@.skip(i as int);
            match (r, p_items(s)) {
                (Some((items, k)), Some((vs, rest))) => view_items(items@) == vs && i <= k
                    <= v@.len() && v@.skip(k as int) == rest,
                (None, None) => true,
                _ => false,
            }
        }),
    decreases v@.len() - i, 2int,
{
    broadcast use lemma_view_items_len;

    let ghost s = v@.skip(i as int);
    match x_value(v, i) {
        None => None,
        Some((val, j)) => {
            let r1 = x_ws(v, j);
            proof {
                assert(v@.skip(r1 as int).len() == v@.len() - r1);
                if r1 < v@.len() {
                    assert(v@.skip(r1 as int)[0] == v@[r1 as int]);
                }
            }
            if r1 >= v.len() {
                return None;
            }
            let c = v[r1];
            if c == ']' {
                let mut items: Vec<Json> = Vec::new();
                items.push(val);
                proof {
                    assert(v@.skip(r1 as int).skip(1) =~= v@.skip(r1 + 1 as int));
                    assert(items@[0] == val);
                    assert(items@.skip(1) =~= Seq::<Json>::empty());
                    assert(view_items(items@) =~= seq![view_json(val)]);
                }
                Some((items, r1 + 1))
            } else if c == ',' {
                proof {
                    assert(v@.skip(r1 as int).skip(1) =~= v@.skip(r1 + 1 as int));
                }
                match x_items(v, r1 + 1) {
                    None => None,
                    Some((mut rest_items, k)) => {
                        let ghost rest_seq = rest_items@;
                        let mut items: Vec<Json> = Vec::new();
                        items.push(val);
                        items.append(&mut rest_items);
                        proof {
                            assert(items@ == seq![val] + rest_seq);
                            assert(items@[0] == val);
                            assert(items@.skip(1) =~= rest_seq);
                            assert(view_items(items@) =~= seq![view_json(val)] + view_items(
                                rest_seq,
                            ));
                        }
                        Some((items, k))
                    },
                }
            } else {
                None
            }
        },
    }
}

/// Parses one or more comma-separated object fields and the closing brace.
fn x_fields(v: &Vec<char>, i: usize) -> (r: Option<(Vec<JField>, usize)>)
    requires
        i <= v@.len(),
    ensures
        ({
            let s = v@.skip(i as int);
            match (r, p_fields(s)) {
                (Some((fields, k)), Some((fs, rest))) => view_fields(fields@) == fs && i <= k
                    <= v@.len() && v@.skip(k as int) == rest,
                (None, None) => true,
                _ => false,
            }
        }),
    decreases v@.len() - i, 2int,
{
    broadcast use lemma_view_fields_len;

    let ghost s = v@.skip(i as int);
    let t = x_ws(v, i);
    let ghost tt = v@.skip(t as int);
    proof {
        assert(tt.len() == v@.len() - t);
        if t < v@.len() {
            assert(tt[0] == v@[t as int]);
        }
    }
    if t >= v.len() {
        return None;
    }
    if v[t] != '"' {
        return None;
    }
    let mut key = String::new();
    proof {
        assert(tt.skip(1) =~= v@.skip(t + 1 as int));
    }
    match x_str_body(v, t + 1, &mut key) {
        None => None,
        Some(j) => {
            proof {
                let cs = p_str_body(tt.skip(1))->Some_0.0;
                assert(key@ =~= cs);
            }
            let r1 = x_ws(v, j);
            proof {
                assert(v@.skip(r1 as int).len() == v@.len() - r1);
                if r1 < v@.len() {
                    assert(v@.skip(r1 as int)[0] == v@[r1 as int]);
                }
            }
            if r1 >= v.len() {
                return None;
            }
            if v[r1] != ':' {
                return None;
            }
            proof {
                assert(v@.skip(r1 as int).skip(1) =~= v@.skip(r1 + 1 as int));
            }
            match x_value(v, r1 + 1) {
                None => None,
                Some((val, j2)) => {
                    let r3 = x_ws(v, j2);
                    proof {
                        assert(v@.skip(r3 as int).len() == v@.len() - r3);
                        if r3 < v@.len() {
                            assert(v@.skip(r3 as int)[0] == v@[r3 as int]);
                        }
                    }
                    if r3 >= v.len() {
                        return None;
                    }
                    let c = v[r3];
                    let ghost kv = (key@, view_json(val));
                    if c == '}' {
                        let mut fields: Vec<JField> = Vec::new();
                        fields.push(JField { key, val });
                        proof {
                            assert(v@.skip(r3 as int).skip(1) =~= v@.skip(r3 + 1 as int));
                            assert(fields@[0].key@ == kv.0 && view_json(fields@[0].val) == kv.1);
                            assert(fields@.skip(1) =~= Seq::<JField>::empty());
                            assert(view_fields(fields@) =~= seq![kv]);
                        }
                        Some((fields, r3 + 1))
                    } else if c == ',' {
                        proof {
                            assert(v@.skip(r3 as int).skip(1) =~= v@.skip(r3 + 1 as int));
                        }
                        match x_fields(v, r3 + 1) {
                            None => None,
                            Some((mut rest_fields, k)) => {
                                let ghost rest_seq = rest_fields@;
                                let mut fields: Vec<JField> = Vec::new();
                                fields.push(JField { key, val });
                                fields.append(&mut rest_fields);
                                proof {
                                    assert(fields@[0].key@ == kv.0 && view_json(fields@[0].val)
                                        == kv.1);
                                    assert(fields@.skip(1) =~= rest_seq);
                                    assert(view_fields(fields@) =~= seq![kv] + view_fields(
                                        rest_seq,
                                    ));
                                }
                                Some((fields, k))
                            },
                        }
                    } else {
                        None
                    }
                },
            }
        },
    }
}

/// What a whole input denotes: one value with nothing but whitespace after
/// it.
pub open spec fn spec_json_of(s: Seq<char>) -> Option<JsonV> {
    match p_value(s) {
        None => None,
        Some((v, rest)) => if p_ws(rest).len() == 0 {
            Some(v)
        } else {
            None
        },
    }
}

proof fn lemma_dec_digits(n: nat)
    ensures
        dec_digits(n).len() > 0,
        forall|i: int| 0 <= i < dec_digits(n).len() ==> is_digit(#[trigger] dec_digits(n)[i]),
        num_val(dec_digits(n)) == n,
        dec_digits(n).len() > 1 ==> dec_digits(n)[0] != '0',
        (n >= 10) == (dec_digits(n).len() > 1),
    decreases n,
{
    if n < 10 {
        let ds = dec_digits(n);
        assert(ds == seq![digit_char(n)]);
        assert(ds.take(0) =~= Seq::<char>::empty());
        assert(num_val(ds) == num_val(ds.take(0)) * 10 + digit_val(digit_char(n)));
        assert(digit_val(digit_char(n)) == n);
    } else {
        lemma_dec_digits(n / 10);
        let pre = dec_digits(n / 10);
        let ds = dec_digits(n);
        let d = digit_char(n % 10);
        assert(ds == pre.push(d));
        assert(ds.take(ds.len() - 1) =~= pre);
        assert(ds.last() == d);
        assert(digit_val(d) == n % 10);
        assert(num_val(ds) == (n / 10) * 10 + n % 10);
        assert forall|i: int| 0 <= i < ds.len() implies is_digit(#[trigger] ds[i]) by {
            if i < pre.len() {
                assert(ds[i] == pre[i]);
            } else {
                assert(ds[i] == d);
                assert(is_digit(digit_char(n % 10)));
            }
        }
        assert(ds[0] == pre[0]);
        if n / 10 < 10 {
            assert(pre == seq![digit_char(n / 10)]);
            assert(n / 10 >= 1);
            assert(digit_char(n / 10) != '0');
        }
    }
}

proof fn lemma_hex_inv(d: nat)
    requires
        d < 16,
    ensures
        is_hex(hex_char(d)),
        hex_val(hex_char(d)) == d,
{
}

/// First-character facts about an encoding: it is nonempty and begins with
/// a character that is not whitespace and not a closing or separating
/// token.
proof fn lemma_enc_first(v: JsonV)
    requires
        wf_json(v),
    ensures
        enc_json(v).len() > 0,
        !is_json_ws(enc_json(v)[0]),
        enc_json(v)[0] != ']',
        enc_json(v)[0] != '}',
        enc_json(v)[0] != ',',
        enc_json(v)[0] != ':',
{
    match v {
        JsonV::Null => {},
        JsonV::Bool(b) => {},
        JsonV::Num(n) => {
            lemma_dec_digits(n as nat);
            assert(is_digit(enc_json(v)[0]));
        },
        JsonV::NumOther(t) => {
            let neg: nat = if t.len() > 0 && t[0] == '-' {
                1
            } else {
                0
            };
            let t1 = t.skip(neg as int);
            assert(t1.len() > 0 && is_digit(t1[0]));
            assert(t.len() > 0);
            if neg == 0 {
                assert(t.skip(0) =~= t);
                assert(is_digit(t[0]));
            } else {
                assert(t[0] == '-');
            }
        },
        JsonV::Str(s) => {
            assert(enc_json(v)[0] == '"');
        },
        JsonV::Arr(items) => {
            assert(enc_json(v)[0] == '[');
        },
        JsonV::Obj(fields) => {
            assert(enc_json(v)[0] == '{');
        },
    }
}

proof fn lemma_parse_enc_string(cs: Seq<char>, rest: Seq<char>)
    ensures
        p_str_body(esc_str(cs) + seq!['"'] + rest) == Some((cs, rest)),
    decreases cs.len(),
{
    broadcast use vstd::utf8::char_u32_cast;

    let s = esc_str(cs) + seq!['"'] + rest;
    if cs.len() == 0 {
        assert(esc_str(cs) =~= Seq::<char>::empty());
        assert(s[0] == '"');
        assert(s.skip(1) =~= rest);
    } else {
        let c = cs[0];
        let tail = cs.skip(1);
        lemma_parse_enc_string(tail, rest);
        assert(esc_str(cs) == esc_char(c) + esc_str(tail));
        assert(seq![c] + tail =~= cs);
        let stail = esc_str(tail) + seq!['"'] + rest;
        if c == '"' || c == '\\' || c == '\n' || c == '\r' || c == '\t' {
            assert(esc_char(c).len() == 2);
            assert(s[0] == esc_char(c)[0]);
            assert(s[1] == esc_char(c)[1]);
            assert(s[0] == '\\');
            assert(s.skip(2) =~= stail);
            assert(p_str_body(s) == Some((seq![c] + tail, rest)));
        } else if (c as u32) < 32 {
            let hi = (c as u32 / 16) as nat;
            let lo = (c as u32 % 16) as nat;
            lemma_hex_inv(hi);
            lemma_hex_inv(lo);
            assert(esc_char(c).len() == 6);
            assert(s[0] == esc_char(c)[0]);
            assert(s[1] == esc_char(c)[1]);
            assert(s[2] == esc_char(c)[2]);
            assert(s[3] == esc_char(c)[3]);
            assert(s[4] == esc_char(c)[4]);
            assert(s[5] == esc_char(c)[5]);
            assert(s[0] == '\\' && s[1] == 'u' && s[2] == '0' && s[3] == '0');
            assert(s[4] == hex_char(hi) && s[5] == hex_char(lo));
            assert(hex_val(s[4]) * 16 + hex_val(s[5]) == c as u32) by {
                assert(c as u32 == 16 * (c as u32 / 16) + c as u32 % 16);
            }
            let u: u32 = c as u32;
            vstd::utf8::char_u32_cast(c, u);
            assert((u as char) == c);
            assert(((hex_val(s[4]) * 16 + hex_val(s[5])) as char) == (u as char));
            assert(((hex_val(s[4]) * 16 + hex_val(s[5])) as char) == c);
            assert(s.skip(6) =~= stail);
            assert(p_str_body(s) == Some((seq![c] + tail, rest)));
        } else {
            assert(esc_char(c) == seq![c]);
            assert(s[0] == c);
            assert(s[0] != '"' && s[0] != '\\');
            assert(s.skip(1) =~= stail);
            assert(p_str_body(s) == Some((seq![c] + tail, rest)));
        }
    }
}

proof fn lemma_digits_len_concat(a: Seq<char>, b: Seq<char>)
    requires
        digits_len(a) < a.len() || b.len() == 0 || !is_digit(b[0]),
    ensures
        digits_len(a + b) == digits_len(a),
{
    lemma_digits_len(a);
    lemma_digits_len(a + b);
    let dl = digits_len(a);
    assert forall|p: int| 0 <= p < dl implies is_digit((a + b)[p]) by {
        assert((a + b)[p] == a[p]);
    }
    lemma_digits_len_lb(a + b, dl as int);
    if dl < a.len() {
        assert((a + b)[dl as int] == a[dl as int]);
        if digits_len(a + b) > dl {
            assert(is_digit((a + b)[dl as int]));
        }
    } else if b.len() > 0 {
        assert((a + b)[dl as int] == b[0]);
        if digits_len(a + b) > dl {
            assert(is_digit((a + b)[dl as int]));
        }
    }
}

/// A valid opaque number token at the head of longer input still reads as
/// itself when what follows cannot extend it.
#[verifier::rlimit(100)]
proof fn lemma_p_number_extend(t: Seq<char>, rest: Seq<char>)
    requires
        valid_numother(t),
        num_boundary(rest),
    ensures
        p_number(t + rest) == Some((JsonV::NumOther(t), rest)),
{
    let s = t + rest;
    let neg: nat = if t.len() > 0 && t[0] == '-' {
        1
    } else {
        0
    };
    let t1 = t.skip(neg as int);
    assert(t1.len() > 0 && is_digit(t1[0]));
    assert(t.len() > 0);
    assert(s[0] == t[0]);
    let s1 = s.skip(neg as int);
    assert(s1 =~= t1 + rest);
    assert(s1[0] == t1[0]);
    let ip: nat = if t1[0] == '0' {
        1
    } else {
        digits_len(t1)
    };
    if t1[0] != '0' {
        lemma_digits_len_concat(t1, rest);
        lemma_digits_len_lb(t1, 1);
    }
    lemma_digits_len(t1);
    assert(1 <= ip <= t1.len());
    let t2 = t1.skip(ip as int);
    let s2 = s1.skip(ip as int);
    assert(s2 =~= t2 + rest);
    assert(frac_len(t2) is Some);
    let fr = frac_len(t2)->Some_0;
    if t2.len() == 0 {
        assert(fr == 0);
        assert(s2 =~= rest);
        assert(frac_len(s2) == Some(0nat));
    } else if t2[0] != '.' {
        assert(fr == 0);
        assert(s2[0] == t2[0]);
        assert(frac_len(s2) == Some(0nat));
    } else {
        assert(s2[0] == '.');
        assert(s2.skip(1) =~= t2.skip(1) + rest);
        lemma_digits_len(t2.skip(1));
        lemma_digits_len_concat(t2.skip(1), rest);
        assert(frac_len(s2) == Some(fr));
        assert(fr <= t2.len());
    }
    let t3 = t2.skip(fr as int);
    let s3 = s2.skip(fr as int);
    assert(s3 =~= t3 + rest);
    assert(exp_len(t3) is Some);
    let ex = exp_len(t3)->Some_0;
    if t3.len() == 0 {
        assert(ex == 0);
        assert(s3 =~= rest);
        assert(exp_len(s3) == Some(0nat));
    } else if t3[0] != 'e' && t3[0] != 'E' {
        assert(ex == 0);
        assert(s3[0] == t3[0]);
        assert(exp_len(s3) == Some(0nat));
    } else {
        assert(s3[0] == t3[0]);
        let sg: nat = if t3.len() > 1 && (t3[1] == '+' || t3[1] == '-') {
            1
        } else {
            0
        };
        assert(digits_len(t3.skip(1 + sg as int)) > 0);
        if t3.len() == 1 {
            assert(digits_len(t3.skip(1)) == 0);
            assert(false);
        }
        assert(s3[1] == t3[1]);
        assert(s3.skip(1 + sg as int) =~= t3.skip(1 + sg as int) + rest);
        lemma_digits_len(t3.skip(1 + sg as int));
        lemma_digits_len_concat(t3.skip(1 + sg as int), rest);
        assert(exp_len(s3) == Some(ex));
        assert(ex <= t3.len());
    }
    let total = neg + ip + fr + ex;
    assert(num_token_len(t) == Some(total));
    assert(num_token_len(s) == Some(total));
    assert(total <= t.len());
    assert(t.skip(total as int).len() == 0);
    assert(total == t.len());
    assert(t.take(total as int) =~= t);
    assert(s.take(total as int) =~= t);
    assert(s.skip(total as int) =~= rest);
}

proof fn lemma_parse_enc_num(n: u64, rest: Seq<char>)
    requires
        num_boundary(rest),
    ensures
        p_number(dec_digits(n as nat) + rest) == Some((JsonV::Num(n), rest)),
{
    lemma_dec_digits(n as nat);
    let ds = dec_digits(n as nat);
    let s = ds + rest;
    assert(s[0] == ds[0]);
    assert(!(s[0] == '-'));
    assert(s.skip(0) =~= s);
    assert forall|p: int| 0 <= p < ds.len() implies is_digit(s[p]) by {
        assert(s[p] == ds[p]);
    }
    lemma_digits_len_lb(s, ds.len() as int);
    lemma_digits_len(s);
    let k = digits_len(s);
    if k > ds.len() {
        assert(is_digit(s[ds.len() as int]));
        assert(s[ds.len() as int] == rest[0]);
        assert(false);
    }
    assert(k == ds.len());
    let ip: nat = if s[0] == '0' {
        1
    } else {
        k
    };
    if n == 0 {
        assert(ds == seq![digit_char(0)]);
        assert(s[0] == '0');
        assert(ip == 1 == ds.len());
    } else {
        if ds.len() > 1 {
            assert(ds[0] != '0');
        } else {
            assert(ds == seq![digit_char(n as nat)]);
            assert(digit_char(n as nat) != '0');
        }
        assert(ip == ds.len());
    }
    let s2 = s.skip(ip as int);
    assert(s2 =~= rest);
    assert(frac_len(s2) == Some(0nat));
    let s3 = s2.skip(0);
    assert(s3 =~= rest);
    assert(exp_len(s3) == Some(0nat));
    assert(num_token_len(s) == Some(ip));
    let tok = s.take(ip as int);
    assert(tok =~= ds);
    lemma_digits_len(ds);
    assert forall|p: int| 0 <= p < ds.len() implies is_digit(ds[p]) by {}
    lemma_digits_len_lb(ds, ds.len() as int);
    assert(digits_len(tok) == tok.len());
    assert(s.skip(ip as int) =~= rest);
    assert(num_val(tok) == n <= u64::MAX);
}

#[verifier::rlimit(50)]
proof fn lemma_parse_enc_value(v: JsonV, rest: Seq<char>)
    requires
        wf_json(v),
        num_boundary(rest),
    ensures
        p_value(enc_json(v) + rest) == Some((v, rest)),
    decreases v,
{
    let e = enc_json(v);
    let s = e + rest;
    lemma_enc_first(v);
    assert(s[0] == e[0]);
    assert(s.len() > 0 && !is_json_ws(s[0]));
    assert(p_ws(s) == s);
    match v {
        JsonV::Null => {
            assert(e == seq!['n', 'u', 'l', 'l']);
            assert(s[0] == 'n' && s[1] == 'u' && s[2] == 'l' && s[3] == 'l');
            assert(s.skip(4) =~= rest);
            assert(p_value(s) == Some((v, rest)));
        },
        JsonV::Bool(b) => {
            if b {
                assert(e == seq!['t', 'r', 'u', 'e']);
                assert(s[0] == 't' && s[1] == 'r' && s[2] == 'u' && s[3] == 'e');
                assert(s.skip(4) =~= rest);
            } else {
                assert(e == seq!['f', 'a', 'l', 's', 'e']);
                assert(s[0] == 'f' && s[1] == 'a' && s[2] == 'l' && s[3] == 's' && s[4] == 'e');
                assert(s.skip(5) =~= rest);
            }
            assert(p_value(s) == Some((v, rest)));
        },
        JsonV::Num(n) => {
            lemma_dec_digits(n as nat);
            assert(is_digit(s[0]));
            assert(s =~= dec_digits(n as nat) + rest);
            lemma_parse_enc_num(n, rest);
            assert(p_value(s) == Some((v, rest)));
        },
        JsonV::NumOther(t) => {
            assert(is_digit(s[0]) || s[0] == '-');
            assert(s =~= t + rest);
            lemma_p_number_extend(t, rest);
            assert(p_value(s) == Some((v, rest)));
        },
        JsonV::Str(cs) => {
            assert(s[0] == '"');
            assert(s.skip(1) =~= esc_str(cs) + seq!['"'] + rest);
            lemma_parse_enc_string(cs, rest);
            assert(p_value(s) == Some((v, rest)));
        },
        JsonV::Arr(items) => {
            assert(s[0] == '[');
            let inner = s.skip(1);
            assert(inner =~= enc_items(items) + seq![']'] + rest);
            if items.len() == 0 {
                assert(inner =~= seq![']'] + rest);
                assert(inner[0] == ']' && !is_json_ws(inner[0]));
                assert(p_ws(inner) == inner);
                assert(inner.skip(1) =~= rest);
                assert(items =~= Seq::<JsonV>::empty());
                assert(p_value(s) == Some((JsonV::Arr(items), rest)));
            } else {
                assert(wf_json(items[0]));
                lemma_enc_first(items[0]);
                assert(enc_items(items)[0] == enc_json(items[0])[0]);
                assert(inner[0] == enc_items(items)[0]);
                assert(!is_json_ws(inner[0]) && inner[0] != ']');
                assert(p_ws(inner) == inner);
                lemma_parse_enc_items(items, rest);
                assert(p_items(inner) == Some((items, rest)));
                assert(p_value(s) == Some((JsonV::Arr(items), rest)));
            }
            assert(p_value(s) == Some((v, rest)));
        },
        JsonV::Obj(fields) => {
            assert(s[0] == '{');
            let inner = s.skip(1);
            assert(inner =~= enc_fields(fields) + seq!['}'] + rest);
            if fields.len() == 0 {
                assert(inner =~= seq!['}'] + rest);
                assert(inner[0] == '}' && !is_json_ws(inner[0]));
                assert(p_ws(inner) == inner);
                assert(inner.skip(1) =~= rest);
                assert(fields =~= Seq::<(Seq<char>, JsonV)>::empty());
                assert(p_value(s) == Some((JsonV::Obj(fields), rest)));
            } else {
                assert(enc_field(fields[0]) == enc_string(fields[0].0) + seq![':'] + enc_json(
                    fields[0].1,
                ));
                assert(enc_field(fields[0]).len() > 0);
                if fields.len() > 1 {
                    assert(enc_fields(fields) == enc_field(fields[0]) + seq![','] + enc_fields(
                        fields.skip(1),
                    ));
                }
                assert(enc_fields(fields)[0] == enc_field(fields[0])[0]);
                assert(enc_field(fields[0])[0] == '"');
                assert(inner[0] == '"');
                assert(p_ws(inner) == inner);
                lemma_parse_enc_fields(fields, rest);
                assert(p_fields(inner) == Some((fields, rest)));
                assert(p_value(s) == Some((JsonV::Obj(fields), rest)));
            }
            assert(p_value(s) == Some((v, rest)));
        },
    }
}

proof fn lemma_parse_enc_items(items: Seq<JsonV>, rest: Seq<char>)
    requires
        items.len() > 0,
        forall|i: int| 0 <= i < items.len() ==> wf_json(#[trigger] items[i]),
    ensures
        p_items(enc_items(items) + seq![']'] + rest) == Some((items, rest)),
    decreases items,
{
    let s = enc_items(items) + seq![']'] + rest;
    assert(wf_json(items[0]));
    lemma_enc_first(items[0]);
    if items.len() == 1 {
        let rest2 = seq![']'] + rest;
        assert(s =~= enc_json(items[0]) + rest2);
        assert(num_boundary(rest2));
        lemma_parse_enc_value(items[0], rest2);
        assert(p_value(s) == Some((items[0], rest2)));
        assert(rest2[0] == ']' && !is_json_ws(rest2[0]));
        assert(p_ws(rest2) == rest2);
        assert(rest2.skip(1) =~= rest);
        assert(seq![items[0]] =~= items);
    } else {
        let rest2 = seq![','] + enc_items(items.skip(1)) + seq![']'] + rest;
        assert(enc_items(items) == enc_json(items[0]) + seq![','] + enc_items(items.skip(1)));
        assert(s =~= enc_json(items[0]) + rest2);
        assert(num_boundary(rest2));
        lemma_parse_enc_value(items[0], rest2);
        assert(p_value(s) == Some((items[0], rest2)));
        assert(rest2[0] == ',' && !is_json_ws(rest2[0]));
        assert(p_ws(rest2) == rest2);
        assert(rest2.skip(1).len() < s.len());
        assert(rest2.skip(1) =~= enc_items(items.skip(1)) + seq![']'] + rest);
        assert forall|i: int| 0 <= i < items.skip(1).len() implies wf_json(
            #[trigger] items.skip(1)[i],
        ) by {
            assert(items.skip(1)[i] == items[i + 1]);
        }
        lemma_parse_enc_items(items.skip(1), rest);
        assert(seq![items[0]] + items.skip(1) =~= items);
    }
}

#[verifier::rlimit(100)]
proof fn lemma_parse_enc_fields(fields: Seq<(Seq<char>, JsonV)>, rest: Seq<char>)
    requires
        fields.len() > 0,
        forall|i: int| 0 <= i < fields.len() ==> wf_json((#[trigger] fields[i]).1),
    ensures
        p_fields(enc_fields(fields) + seq!['}'] + rest) == Some((fields, rest)),
    decreases fields,
{
    let s = enc_fields(fields) + seq!['}'] + rest;
    let f0 = fields[0];
    let key = f0.0;
    let val = f0.1;
    let close = if fields.len() == 1 {
        seq!['}']
    } else {
        seq![',']
    };
    let after_val = if fields.len() == 1 {
        seq!['}'] + rest
    } else {
        seq![','] + enc_fields(fields.skip(1)) + seq!['}'] + rest
    };
    // In both cases the input decomposes after the first field the same way.
    assert(enc_field(f0) == enc_string(key) + seq![':'] + enc_json(val));
    if fields.len() == 1 {
        assert(s =~= enc_field(f0) + (seq!['}'] + rest));
    } else {
        assert(enc_fields(fields) == enc_field(f0) + seq![','] + enc_fields(fields.skip(1)));
        assert(s =~= enc_field(f0) + (seq![','] + enc_fields(fields.skip(1)) + seq!['}'] + rest));
    }
    assert(s[0] == '"');
    assert(p_ws(s) == s);
    assert(s.skip(1) =~= esc_str(key) + seq!['"'] + (seq![':'] + enc_json(val) + after_val));
    lemma_parse_enc_string(key, seq![':'] + enc_json(val) + after_val);
    let r = seq![':'] + enc_json(val) + after_val;
    assert(p_str_body(s.skip(1)) == Some((key, r)));
    assert(r[0] == ':' && !is_json_ws(r[0]));
    assert(p_ws(r) == r);
    assert(r.skip(1).len() < s.len());
    assert(r.skip(1) =~= enc_json(val) + after_val);
    assert(after_val[0] == close[0]);
    assert(num_boundary(after_val));
    assert(wf_json(val));
    lemma_parse_enc_value(val, after_val);
    assert(p_value(r.skip(1)) == Some((val, after_val)));
    lemma_enc_first(val);
    assert(!is_json_ws(after_val[0]));
    assert(p_ws(after_val) == after_val);
    if fields.len() == 1 {
        assert(after_val[0] == '}');
        assert(after_val.skip(1) =~= rest);
        assert(seq![(key, val)] =~= fields);
    } else {
        assert(after_val[0] == ',');
        assert(after_val.skip(1).len() < s.len());
        assert(after_val.skip(1) =~= enc_fields(fields.skip(1)) + seq!['}'] + rest);
        assert forall|i: int| 0 <= i < fields.skip(1).len() implies wf_json(
            (#[trigger] fields.skip(1)[i]).1,
        ) by {
            assert(fields.skip(1)[i] == fields[i + 1]);
        }
        lemma_parse_enc_fields(fields.skip(1), rest);
        assert(seq![(key, val)] + fields.skip(1) =~= fields);
    }
}

/// The round-trip law of the codec: parsing a canonical encoding yields
/// the encoded document, for every well-formed document.
pub proof fn lemma_json_round_trip(v: JsonV)
    requires
        wf_json(v),
    ensures
        spec_json_of(enc_json(v)) == Some(v),
{
    lemma_parse_enc_value(v, Seq::empty());
    assert(enc_json(v) + Seq::<char>::empty() =~= enc_json(v));
    assert(p_ws(Seq::<char>::empty()).len() == 0);
}

/// The value of the first field carrying `key`, if any.
pub open spec fn jfield_lookup(fields: Seq<(Seq<char>, JsonV)>, key: Seq<char>) -> Option<JsonV>
    decreases fields.len(),
{
    if fields.len() == 0 {
        None
    } else if fields[0].0 == key {
        Some(fields[0].1)
    } else {
        jfield_lookup(fields.skip(1), key)
    }
}

/// The index of the first field carrying `key`, or a negative value when
/// no field does.
pub open spec fn field_index(fields: Seq<(Seq<char>, JsonV)>, key: Seq<char>) -> int
    decreases fields.len(),
{
    if fields.len() == 0 {
        -1
    } else if fields[0].0 == key {
        0
    } else if field_index(fields.skip(1), key) < 0 {
        -1
    } else {
        1 + field_index(fields.skip(1), key)
    }
}

/// What the field index means: a found index names the first field with
/// the key; a negative index means no field has it.
pub proof fn lemma_field_index(fields: Seq<(Seq<char>, JsonV)>, key: Seq<char>)
    ensures
        ({
            let fi = field_index(fields, key);
            &&& (fi >= 0 ==> 0 <= fi < fields.len() && fields[fi].0 == key && (forall|j: int|
                0 <= j < fi ==> (#[trigger] fields[j]).0 != key) && jfield_lookup(fields, key)
                == Some(fields[fi].1))
            &&& (fi < 0 ==> (forall|i: int|
                0 <= i < fields.len() ==> (#[trigger] fields[i]).0 != key) && jfield_lookup(
                fields,
                key,
            ) is None)
        }),
    decreases fields.len(),
{
    if fields.len() > 0 && fields[0].0 != key {
        lemma_field_index(fields.skip(1), key);
        let fi = field_index(fields, key);
        let inner = field_index(fields.skip(1), key);
        if inner >= 0 {
            assert(fields.skip(1)[inner] == fields[inner + 1]);
            assert forall|j: int| 0 <= j < fi implies (#[trigger] fields[j]).0 != key by {
                if j > 0 {
                    assert(fields.skip(1)[j - 1] == fields[j]);
                }
            }
        } else {
            assert forall|i: int| 0 <= i < fields.len() implies (#[trigger] fields[i]).0
                != key by {
                if i > 0 {
                    assert(fields.skip(1)[i - 1] == fields[i]);
                }
            }
        }
    }
}

/// A field with `key` at `i` and none before it: `i` is its index.
pub proof fn lemma_field_index_at(fields: Seq<(Seq<char>, JsonV)>, key: Seq<char>, i: int)
    requires
        0 <= i < fields.len(),
        fields[i].0 == key,
        forall|j: int| 0 <= j < i ==> (#[trigger] fields[j]).0 != key,
    ensures
        field_index(fields, key) == i,
{
    lemma_field_index(fields, key);
    let fi = field_index(fields, key);
    if fi < 0 {
        assert(fields[i].0 != key);
    } else {
        if fi < i {
            assert(fields[fi].0 != key);
        }
        if fi > i {
            assert(fields[i].0 != key);
        }
    }
}

/// No field carries `key`: the index is negative.
pub proof fn lemma_field_index_absent(fields: Seq<(Seq<char>, JsonV)>, key: Seq<char>)
    requires
        forall|i: int| 0 <= i < fields.len() ==> (#[trigger] fields[i]).0 != key,
    ensures
        field_index(fields, key) < 0,
{
    lemma_field_index(fields, key);
    let fi = field_index(fields, key);
    if fi >= 0 {
        assert(fields[fi].0 != key);
    }
}

/// The position of the first field carrying `key`, if any.
pub fn find_field(fields: &Vec<JField>, key: &String) -> (r: Option<usize>)
    ensures
        ({
            let vf = view_fields(fields@);
            match r {
                Some(i) => i < fields@.len() && i as int == field_index(vf, key@) && jfield_lookup(
                    vf,
                    key@,
                ) == Some(vf[i as int].1),
                None => field_index(vf, key@) < 0 && jfield_lookup(vf, key@) is None,
            }
        }),
{
    broadcast use lemma_view_fields_len, lemma_view_fields_index;

    let ghost vf = view_fields(fields@);
    let mut i: usize = 0;
    while i < fields.len()
        invariant
            i <= fields@.len(),
            vf == view_fields(fields@),
            forall|j: int| 0 <= j < i ==> (#[trigger] vf[j]).0 != key@,
        decreases fields@.len() - i,
    {
        proof {
            lemma_view_fields_len(fields@);
            lemma_view_fields_index(fields@, i as int);
        }
        if fields[i].key.eq(key) {
            proof {
                assert(vf[i as int].0 == key@);
                lemma_field_index(vf, key@);
                let fi = field_index(vf, key@);
                if fi < 0 {
                    assert(vf[i as int].0 != key@);
                }
                if fi < i {
                    assert(vf[fi].0 != key@);
                }
                if fi > i {
                    assert(vf[i as int].0 != key@);
                }
                assert(fi == i);
            }
            return Some(i);
        }
        i += 1;
    }
    proof {
        lemma_view_fields_len(fields@);
        lemma_field_index(vf, key@);
        let fi = field_index(vf, key@);
        if fi >= 0 {
            assert(vf[fi].0 == key@);
            assert(vf[fi].0 != key@);
        }
    }
    None
}

/// Parses a whole JSON document.
pub fn parse_json(s: &str) -> (r: Option<Json>)
    ensures
        match r {
            Some(j) => spec_json_of(s@) == Some(view_json(j)),
            None => spec_json_of(s@) is None,
        },
{
    let v = crate::chars::to_chars(s);
    proof {
        assert(v@.skip(0) =~= s@);
    }
    match x_value(&v, 0) {
        None => None,
        Some((j, k)) => {
            let e = x_ws(&v, k);
            proof {
                assert(v@.skip(e as int).len() == v@.len() - e);
            }
            if e == v.len() {
                Some(j)
            } else {
                None
            }
        },
    }
}

} // verus!
