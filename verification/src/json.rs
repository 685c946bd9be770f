//! A self-contained JSON value model and a verified wire codec for it.
//!
//! The wire subset is what the JSON-RPC envelope needs: `null`, booleans,
//! integers (no fractions or exponents), strings held as raw bytes, arrays
//! and objects. Every value encodes to a canonical byte sequence, and the
//! decoder is proved to invert the encoder.

use vstd::prelude::*;

verus! {

broadcast use
    vstd::std_specs::vec::group_vec_axioms,
    vstd::seq::axiom_seq_index_decreases,
    vstd::seq::axiom_seq_subrange_decreases;

/// A JSON value restricted to the wire subset this library speaks.
///
/// String contents are held as raw bytes (the unescaped body of a JSON
/// string literal). Numbers are integers in the range `[-2^63, 2^64)`,
/// the union of the signed and unsigned 64-bit ranges.
#[derive(Debug, PartialEq, Eq)]
pub enum Json {
    /// `null`
    Null,
    /// `true` or `false`
    Bool(bool),
    /// An integer number.
    Int(i128),
    /// A string, as its raw (unescaped) bytes.
    Str(Vec<u8>),
    /// An array of values.
    Arr(Vec<Json>),
    /// An object: fields in order of appearance.
    Obj(Vec<(Vec<u8>, Json)>),
}

/// The mathematical model of a [`Json`] value.
pub enum JVal {
    /// `null`
    Null,
    /// `true` or `false`
    Bool(bool),
    /// An integer number.
    Int(i128),
    /// A string, as its raw (unescaped) bytes.
    Str(Seq<u8>),
    /// An array of values.
    Arr(Seq<JVal>),
    /// An object: fields in order of appearance.
    Obj(Seq<(Seq<u8>, JVal)>),
}

/// The mathematical value of a [`Json`] tree.
pub open spec fn jval_of(j: Json) -> JVal
    decreases j,
{
    match j {
        Json::Null => JVal::Null,
        Json::Bool(b) => JVal::Bool(b),
        Json::Int(n) => JVal::Int(n),
        Json::Str(s) => JVal::Str(s@),
        Json::Arr(items) => JVal::Arr(
            Seq::new(
                items@.len(),
                |k: int|
                    if 0 <= k < items@.len() {
                        jval_of(items@[k])
                    } else {
                        JVal::Null
                    },
            ),
        ),
        Json::Obj(fields) => JVal::Obj(
            Seq::new(
                fields@.len(),
                |k: int|
                    if 0 <= k < fields@.len() {
                        (fields@[k].0@, jval_of(fields@[k].1))
                    } else {
                        (Seq::empty(), JVal::Null)
                    },
            ),
        ),
    }
}

impl View for Json {
    type V = JVal;

    open spec fn view(&self) -> JVal {
        jval_of(*self)
    }
}

/// A number in the wire range: the union of the `i64` and `u64` ranges.
pub open spec fn int_in_wire_range(n: i128) -> bool {
    -0x8000_0000_0000_0000 <= n < 0x1_0000_0000_0000_0000
}

impl Json {
    /// True when the value is `null`.
    pub fn is_null(&self) -> (r: bool)
        ensures
            r == (self@ is Null),
    {
        matches!(self, Json::Null)
    }

    /// Whether every number in the value lies in the wire range, so that
    /// the value can be encoded.
    #[verifier::loop_isolation(false)]
    pub fn check_wf(&self) -> (r: bool)
        ensures
            r == wf_jval(jval_of(*self)),
        decreases self,
    {
        match self {
            Json::Null => true,
            Json::Bool(_) => true,
            Json::Int(n) => -0x8000_0000_0000_0000i128 <= *n && *n < 0x1_0000_0000_0000_0000i128,
            Json::Str(_) => true,
            Json::Arr(items) => {
                let ghost va: Seq<JVal> = jval_of(*self)->Arr_0;
                let mut k: usize = 0;
                let mut ok = true;
                while k < items.len()
                    invariant
                        k <= items.len(),
                        ok == (forall|j: int| 0 <= j < k as int ==> wf_jval(#[trigger] va[j])),
                    decreases items.len() - k,
                {
                    proof {
                        assert(va[k as int] == jval_of(items@[k as int]));
                    }
                    if !items[k].check_wf() {
                        ok = false;
                    }
                    k = k + 1;
                }
                ok
            },
            Json::Obj(fields) => {
                let ghost fa: Seq<(Seq<u8>, JVal)> = jval_of(*self)->Obj_0;
                let mut k: usize = 0;
                let mut ok = true;
                while k < fields.len()
                    invariant
                        k <= fields.len(),
                        ok == (forall|j: int| 0 <= j < k as int ==> wf_jval((#[trigger] fa[j]).1)),
                    decreases fields.len() - k,
                {
                    proof {
                        assert(fa[k as int] == (fields@[k as int].0@, jval_of(
                            fields@[k as int].1,
                        )));
                    }
                    if !fields[k].1.check_wf() {
                        ok = false;
                    }
                    k = k + 1;
                }
                ok
            },
        }
    }

    /// A structurally equal copy of the value.
    #[verifier::loop_isolation(false)]
    pub fn deep_clone(&self) -> (r: Json)
        ensures
            r@ == self@,
        decreases self,
    {
        match self {
            Json::Null => Json::Null,
            Json::Bool(b) => Json::Bool(*b),
            Json::Int(n) => Json::Int(*n),
            Json::Str(s) => Json::Str(clone_bytes(s)),
            Json::Arr(items) => {
                let mut out: Vec<Json> = Vec::new();
                let mut k: usize = 0;
                while k < items.len()
                    invariant
                        k <= items.len(),
                        out@.len() == k as int,
                        forall|j: int| 0 <= j < k as int ==> out@[j]@ == items@[j]@,
                    decreases items.len() - k,
                {
                    out.push(items[k].deep_clone());
                    k = k + 1;
                }
                let r = Json::Arr(out);
                proof {
                    assert(r@ matches JVal::Arr(s) && s =~= self@->Arr_0);
                }
                r
            },
            Json::Obj(fields) => {
                let mut out: Vec<(Vec<u8>, Json)> = Vec::new();
                let mut k: usize = 0;
                while k < fields.len()
                    invariant
                        k <= fields.len(),
                        out@.len() == k as int,
                        forall|j: int|
                            0 <= j < k as int ==> out@[j].0@ == fields@[j].0@ && out@[j].1@
                                == fields@[j].1@,
                    decreases fields.len() - k,
                {
                    let pair = &fields[k];
                    out.push((clone_bytes(&pair.0), pair.1.deep_clone()));
                    k = k + 1;
                }
                let r = Json::Obj(out);
                proof {
                    assert(r@ matches JVal::Obj(s) && s =~= self@->Obj_0);
                }
                r
            },
        }
    }
}

/// Well-formed values: every number lies in the wire range.
pub open spec fn wf_jval(v: JVal) -> bool
    decreases v,
{
    match v {
        JVal::Null => true,
        JVal::Bool(_) => true,
        JVal::Int(n) => int_in_wire_range(n),
        JVal::Str(_) => true,
        JVal::Arr(items) => forall|i: int| 0 <= i < items.len() ==> wf_jval(#[trigger] items[i]),
        JVal::Obj(fields) => forall|i: int|
            0 <= i < fields.len() ==> wf_jval(#[trigger] fields[i].1),
    }
}

/// Decimal digits of `n`, most significant first.
pub open spec fn spec_dec_digits(n: nat) -> Seq<u8>
    decreases n,
{
    if n < 10 {
        seq![(48 + n) as u8]
    } else {
        spec_dec_digits(n / 10).push((48 + n % 10) as u8)
    }
}

/// The canonical encoding of an integer: decimal digits, `-` prefixed when
/// negative.
pub open spec fn spec_enc_int(n: i128) -> Seq<u8> {
    if n < 0 {
        seq![45u8] + spec_dec_digits((-(n as int)) as nat)
    } else {
        spec_dec_digits(n as nat)
    }
}

/// The lower-case hexadecimal digit for `k < 16`.
pub open spec fn spec_hex_digit(k: nat) -> u8 {
    if k < 10 {
        (48 + k) as u8
    } else {
        (87 + k) as u8
    }
}

/// How one raw byte of a string body is written: `"` and `\` get a
/// backslash escape, control bytes become `\u00xx`, all else stands as is.
pub open spec fn spec_esc_byte(b: u8) -> Seq<u8> {
    if b == 34 {
        seq![92u8, 34u8]
    } else if b == 92 {
        seq![92u8, 92u8]
    } else if b < 32 {
        seq![92u8, 117u8, 48u8, 48u8, spec_hex_digit((b / 16) as nat), spec_hex_digit(
            (b % 16) as nat,
        )]
    } else {
        seq![b]
    }
}

/// The escaped string body from byte `k` on.
pub open spec fn spec_enc_str_body(s: Seq<u8>, k: int) -> Seq<u8>
    decreases s.len() - k,
{
    if k < 0 || k >= s.len() {
        Seq::empty()
    } else {
        spec_esc_byte(s[k]) + spec_enc_str_body(s, k + 1)
    }
}

/// The canonical encoding of a string: quoted, escaped body.
pub open spec fn spec_enc_string(s: Seq<u8>) -> Seq<u8> {
    seq![34u8] + spec_enc_str_body(s, 0) + seq![34u8]
}

/// The canonical encoding of a value.
pub open spec fn spec_enc_value(v: JVal) -> Seq<u8>
    decreases v, 0int,
{
    match v {
        JVal::Null => seq![110u8, 117u8, 108u8, 108u8],
        JVal::Bool(b) => if b {
            seq![116u8, 114u8, 117u8, 101u8]
        } else {
            seq![102u8, 97u8, 108u8, 115u8, 101u8]
        },
        JVal::Int(n) => spec_enc_int(n),
        JVal::Str(s) => spec_enc_string(s),
        JVal::Arr(items) => seq![91u8] + spec_enc_items(items, 0) + seq![93u8],
        JVal::Obj(fields) => seq![123u8] + spec_enc_fields(fields, 0) + seq![125u8],
    }
}

/// The comma-separated encodings of array items from index `k` on.
pub open spec fn spec_enc_items(items: Seq<JVal>, k: int) -> Seq<u8>
    decreases items, items.len() - k,
{
    if k < 0 || k >= items.len() {
        Seq::empty()
    } else {
        (if k > 0 {
            seq![44u8]
        } else {
            Seq::<u8>::empty()
        }) + spec_enc_value(items[k]) + spec_enc_items(items, k + 1)
    }
}

/// The comma-separated `"key":value` encodings of object fields from `k` on.
pub open spec fn spec_enc_fields(fields: Seq<(Seq<u8>, JVal)>, k: int) -> Seq<u8>
    decreases fields, fields.len() - k,
{
    if k < 0 || k >= fields.len() {
        Seq::empty()
    } else {
        (if k > 0 {
            seq![44u8]
        } else {
            Seq::<u8>::empty()
        }) + spec_enc_string(fields[k].0) + seq![58u8] + spec_enc_value(fields[k].1)
            + spec_enc_fields(fields, k + 1)
    }
}

/// JSON whitespace.
pub open spec fn is_ws(b: u8) -> bool {
    b == 32 || b == 9 || b == 10 || b == 13
}

/// ASCII decimal digit.
pub open spec fn is_digit(b: u8) -> bool {
    48 <= b && b <= 57
}

/// The first position at or after `i` holding no whitespace.
pub open spec fn spec_ws(s: Seq<u8>, i: int) -> int
    decreases s.len() - i,
{
    if 0 <= i < s.len() && is_ws(s[i]) {
        spec_ws(s, i + 1)
    } else {
        i
    }
}

/// The first position at or after `i` holding no digit.
pub open spec fn spec_digits_end(s: Seq<u8>, i: int) -> int
    decreases s.len() - i,
{
    if 0 <= i < s.len() && is_digit(s[i]) {
        spec_digits_end(s, i + 1)
    } else {
        i
    }
}

/// The decimal value of the digit run starting at `i`, on top of `acc`.
pub open spec fn spec_digits_val(s: Seq<u8>, i: int, acc: nat) -> nat
    decreases s.len() - i,
{
    if 0 <= i < s.len() && is_digit(s[i]) {
        spec_digits_val(s, i + 1, acc * 10 + (s[i] - 48) as nat)
    } else {
        acc
    }
}

/// Parses an integer token at `i`: optional minus, digits without a leading
/// zero, no fraction or exponent, value within the wire range.
pub open spec fn spec_parse_number(s: Seq<u8>, i: int) -> Option<(JVal, int)> {
    let neg = 0 <= i < s.len() && s[i] == 45;
    let st = if neg {
        i + 1
    } else {
        i
    };
    if !(0 <= st < s.len() && is_digit(s[st])) {
        None
    } else if s[st] == 48 && st + 1 < s.len() && is_digit(s[st + 1]) {
        None
    } else {
        let e = spec_digits_end(s, st);
        let n = spec_digits_val(s, st, 0);
        if e < s.len() && (s[e] == 46 || s[e] == 101 || s[e] == 69) {
            None
        } else if neg {
            if n > 0x8000_0000_0000_0000 {
                None
            } else {
                Some((JVal::Int((-(n as int)) as i128), e))
            }
        } else {
            if n >= 0x1_0000_0000_0000_0000 {
                None
            } else {
                Some((JVal::Int(n as i128), e))
            }
        }
    }
}

/// The value of one hexadecimal digit, upper or lower case.
pub open spec fn spec_hex_val(b: u8) -> Option<nat> {
    if 48 <= b && b <= 57 {
        Some(((b - 48) as nat))
    } else if 97 <= b && b <= 102 {
        Some(((b - 87) as nat))
    } else if 65 <= b && b <= 70 {
        Some(((b - 55) as nat))
    } else {
        None
    }
}

/// Parses a string body (after the opening quote) up to and including the
/// closing quote: returns the raw bytes and the position after the quote.
/// `\uXXXX` escapes are accepted for code points up to `0xff` only.
pub open spec fn spec_parse_str_body(s: Seq<u8>, i: int) -> Option<(Seq<u8>, int)>
    decreases s.len() - i,
{
    if !(0 <= i < s.len()) {
        None
    } else {
        let b = s[i];
        if b == 34 {
            Some((Seq::empty(), i + 1))
        } else if b == 92 {
            if i + 1 >= s.len() {
                None
            } else {
                let e = s[i + 1];
                if e == 117 {
                    if i + 6 > s.len() {
                        None
                    } else {
                        match (spec_hex_val(s[i + 2]), spec_hex_val(s[i + 3]), spec_hex_val(s[i + 4]), spec_hex_val(s[i + 5])) {
                            (Some(h3), Some(h2), Some(h1), Some(h0)) => {
                                let cp = h3 * 4096 + h2 * 256 + h1 * 16 + h0;
                                if cp > 255 {
                                    None
                                } else {
                                    match spec_parse_str_body(s, i + 6) {
                                        Some((rest, e2)) => Some((seq![cp as u8] + rest, e2)),
                                        None => None,
                                    }
                                }
                            },
                            _ => None,
                        }
                    }
                } else {
                    let c: Option<u8> = if e == 34 {
                        Some(34u8)
                    } else if e == 92 {
                        Some(92u8)
                    } else if e == 47 {
                        Some(47u8)
                    } else if e == 98 {
                        Some(8u8)
                    } else if e == 102 {
                        Some(12u8)
                    } else if e == 110 {
                        Some(10u8)
                    } else if e == 114 {
                        Some(13u8)
                    } else if e == 116 {
                        Some(9u8)
                    } else {
                        None
                    };
                    match c {
                        Some(cb) => match spec_parse_str_body(s, i + 2) {
                            Some((rest, e2)) => Some((seq![cb] + rest, e2)),
                            None => None,
                        },
                        None => None,
                    }
                }
            }
        } else if b < 32 {
            None
        } else {
            match spec_parse_str_body(s, i + 1) {
                Some((rest, e2)) => Some((seq![b] + rest, e2)),
                None => None,
            }
        }
    }
}

/// Parses a JSON value at `i`, after skipping whitespace.
pub open spec fn spec_parse_value(s: Seq<u8>, i: int) -> Option<(JVal, int)>
    decreases s.len() - i, 0int,
{
    let j = spec_ws(s, i);
    if !(i <= j && j < s.len()) {
        None
    } else {
        let b = s[j];
        if b == 123 {
            match spec_parse_fields(s, j + 1, true) {
                Some((fs, e)) => Some((JVal::Obj(fs), e)),
                None => None,
            }
        } else if b == 91 {
            match spec_parse_elems(s, j + 1, true) {
                Some((vs, e)) => Some((JVal::Arr(vs), e)),
                None => None,
            }
        } else if b == 34 {
            match spec_parse_str_body(s, j + 1) {
                Some((bs, e)) => Some((JVal::Str(bs), e)),
                None => None,
            }
        } else if b == 110 {
            if j + 4 <= s.len() && s[j + 1] == 117 && s[j + 2] == 108 && s[j + 3] == 108 {
                Some((JVal::Null, j + 4))
            } else {
                None
            }
        } else if b == 116 {
            if j + 4 <= s.len() && s[j + 1] == 114 && s[j + 2] == 117 && s[j + 3] == 101 {
                Some((JVal::Bool(true), j + 4))
            } else {
                None
            }
        } else if b == 102 {
            if j + 5 <= s.len() && s[j + 1] == 97 && s[j + 2] == 108 && s[j + 3] == 115 && s[j + 4]
                == 101 {
                Some((JVal::Bool(false), j + 5))
            } else {
                None
            }
        } else if b == 45 || is_digit(b) {
            spec_parse_number(s, j)
        } else {
            None
        }
    }
}

/// Parses array items from `i`: either right after `[` (`first`) or right
/// after an item (`!first`, where a comma must precede the next item).
pub open spec fn spec_parse_elems(s: Seq<u8>, i: int, first: bool) -> Option<(Seq<JVal>, int)>
    decreases s.len() - i, 1int,
{
    let j = spec_ws(s, i);
    if !(i <= j && j < s.len()) {
        None
    } else if s[j] == 93 {
        Some((Seq::empty(), j + 1))
    } else {
        let vstart = if first {
            j
        } else if s[j] == 44 {
            j + 1
        } else {
            -1
        };
        if vstart < i {
            None
        } else {
            match spec_parse_value(s, vstart) {
                Some((v, k)) => {
                    if !(i < k && k <= s.len()) {
                        None
                    } else {
                        match spec_parse_elems(s, k, false) {
                            Some((rest, e)) => Some((seq![v] + rest, e)),
                            None => None,
                        }
                    }
                },
                None => None,
            }
        }
    }
}

/// Parses object fields from `i`: either right after `{` (`first`) or right
/// after a field (`!first`, where a comma must precede the next field).
pub open spec fn spec_parse_fields(s: Seq<u8>, i: int, first: bool) -> Option<
    (Seq<(Seq<u8>, JVal)>, int),
>
    decreases s.len() - i, 1int,
{
    let j = spec_ws(s, i);
    if !(i <= j && j < s.len()) {
        None
    } else if s[j] == 125 {
        Some((Seq::empty(), j + 1))
    } else {
        let kstart = if first {
            j
        } else if s[j] == 44 {
            j + 1
        } else {
            -1
        };
        if kstart < i {
            None
        } else {
            let kj = spec_ws(s, kstart);
            if !(kstart <= kj && kj < s.len() && s[kj] == 34) {
                None
            } else {
                match spec_parse_str_body(s, kj + 1) {
                    Some((key, k1)) => {
                        if !(kj < k1 && k1 <= s.len()) {
                            None
                        } else {
                            let cj = spec_ws(s, k1);
                            if !(k1 <= cj && cj < s.len() && s[cj] == 58) {
                                None
                            } else {
                                match spec_parse_value(s, cj + 1) {
                                    Some((v, k2)) => {
                                        if !(i < k2 && k2 <= s.len()) {
                                            None
                                        } else {
                                            match spec_parse_fields(s, k2, false) {
                                                Some((rest, e)) => Some(
                                                    (seq![(key, v)] + rest, e),
                                                ),
                                                None => None,
                                            }
                                        }
                                    },
                                    None => None,
                                }
                            }
                        }
                    },
                    None => None,
                }
            }
        }
    }
}

/// Parses a whole buffer as one JSON value with only whitespace around it.
pub open spec fn spec_parse_json(s: Seq<u8>) -> Option<JVal> {
    match spec_parse_value(s, 0) {
        Some((v, e)) => if spec_ws(s, e) == s.len() {
            Some(v)
        } else {
            None
        },
        None => None,
    }
}

/// The mathematical values of a sequence of [`Json`] trees.
pub open spec fn jvals_of(vs: Seq<Json>) -> Seq<JVal> {
    Seq::new(vs.len(), |k: int| jval_of(vs[k]))
}

/// The mathematical values of a sequence of object fields.
pub open spec fn jfields_of(fs: Seq<(Vec<u8>, Json)>) -> Seq<(Seq<u8>, JVal)> {
    Seq::new(fs.len(), |k: int| (fs[k].0@, jval_of(fs[k].1)))
}

/// The digit run ends within the buffer.
pub proof fn lemma_digits_end_bounds(s: Seq<u8>, i: int)
    requires
        0 <= i <= s.len(),
    ensures
        i <= spec_digits_end(s, i) <= s.len(),
    decreases s.len() - i,
{
    if i < s.len() && is_digit(s[i]) {
        lemma_digits_end_bounds(s, i + 1);
    }
}

/// Accumulating digits never shrinks the value.
pub proof fn lemma_digits_val_lower(s: Seq<u8>, i: int, acc: nat)
    ensures
        spec_digits_val(s, i, acc) >= acc,
    decreases s.len() - i,
{
    if 0 <= i < s.len() && is_digit(s[i]) {
        lemma_digits_val_lower(s, i + 1, acc * 10 + (s[i] - 48) as nat);
    }
}

/// Skips whitespace from `i`.
pub fn skip_ws(s: &[u8], i: usize) -> (j: usize)
    requires
        i <= s@.len(),
    ensures
        j as int == spec_ws(s@, i as int),
        i <= j <= s@.len(),
{
    let mut k: usize = i;
    while k < s.len() && (s[k] == 32 || s[k] == 9 || s[k] == 10 || s[k] == 13)
        invariant
            i <= k <= s@.len(),
            spec_ws(s@, i as int) == spec_ws(s@, k as int),
        decreases s@.len() - k,
    {
        k = k + 1;
    }
    k
}

/// The value of one hexadecimal digit, upper or lower case.
pub fn hex_val(b: u8) -> (r: Option<u8>)
    ensures
        match r {
            Some(h) => spec_hex_val(b) == Some(h as nat) && h < 16,
            None => spec_hex_val(b) is None,
        },
{
    if 48 <= b && b <= 57 {
        Some(b - 48)
    } else if 97 <= b && b <= 102 {
        Some(b - 87)
    } else if 65 <= b && b <= 70 {
        Some(b - 55)
    } else {
        None
    }
}

/// Parses an integer token at `i`.
#[verifier::loop_isolation(false)]
pub fn parse_number(s: &[u8], i: usize) -> (r: Option<(Json, usize)>)
    requires
        i <= s@.len(),
    ensures
        match r {
            Some((v, e)) => spec_parse_number(s@, i as int) == Some((v@, e as int)) && i < e
                <= s@.len() && wf_jval(v@),
            None => spec_parse_number(s@, i as int) is None,
        },
{
    let neg = i < s.len() && s[i] == 45;
    let st: usize = if neg {
        i + 1
    } else {
        i
    };
    if !(st < s.len() && 48 <= s[st] && s[st] <= 57) {
        return None;
    }
    if s[st] == 48 && st + 1 < s.len() && 48 <= s[st + 1] && s[st + 1] <= 57 {
        return None;
    }
    let mut k: usize = st;
    let mut acc: u128 = 0;
    let mut over = false;
    let ghost mut gacc: nat = 0nat;
    while k < s.len() && 48 <= s[k] && s[k] <= 57
        invariant
            st <= k <= s@.len(),
            spec_digits_end(s@, st as int) == spec_digits_end(s@, k as int),
            spec_digits_val(s@, st as int, 0nat) == spec_digits_val(s@, k as int, gacc),
            !over ==> acc as nat == gacc && gacc <= u64::MAX as nat,
            over ==> gacc > u64::MAX as nat,
        decreases s@.len() - k,
    {
        let d: u8 = s[k] - 48;
        if !over {
            let next: u128 = acc * 10 + (d as u128);
            if next > u64::MAX as u128 {
                over = true;
            } else {
                acc = next;
            }
        }
        proof {
            gacc = gacc * 10 + (d as nat);
        }
        k = k + 1;
    }
    proof {
        assert(spec_digits_val(s@, k as int, gacc) == gacc);
        assert(spec_digits_end(s@, k as int) == k as int);
        lemma_digits_end_bounds(s@, st + 1 as int);
        assert(spec_digits_end(s@, st as int) >= st + 1);
        if over {
            lemma_digits_val_lower(s@, st as int, 0nat);
        }
    }
    if k < s.len() && (s[k] == 46 || s[k] == 101 || s[k] == 69) {
        return None;
    }
    if neg {
        if over || acc > 0x8000_0000_0000_0000u128 {
            None
        } else {
            let v = Json::Int(-(acc as i128));
            Some((v, k))
        }
    } else {
        if over {
            None
        } else {
            let v = Json::Int(acc as i128);
            Some((v, k))
        }
    }
}

/// Parses a string body (after the opening quote) up to and including the
/// closing quote.
pub fn parse_str_body(s: &[u8], i: usize) -> (r: Option<(Vec<u8>, usize)>)
    requires
        i <= s@.len(),
    ensures
        match r {
            Some((bs, e)) => spec_parse_str_body(s@, i as int) == Some((bs@, e as int)) && i < e
                <= s@.len(),
            None => spec_parse_str_body(s@, i as int) is None,
        },
    decreases s@.len() - i,
{
    if i >= s.len() {
        return None;
    }
    let b = s[i];
    if b == 34 {
        let bs: Vec<u8> = Vec::new();
        proof {
            assert(bs@ =~= Seq::<u8>::empty());
        }
        Some((bs, i + 1))
    } else if b == 92 {
        if s.len() - i < 2 {
            return None;
        }
        let e = s[i + 1];
        if e == 117 {
            if s.len() - i < 6 {
                return None;
            }
            let h3 = hex_val(s[i + 2]);
            let h2 = hex_val(s[i + 3]);
            let h1 = hex_val(s[i + 4]);
            let h0 = hex_val(s[i + 5]);
            match (h3, h2, h1, h0) {
                (Some(a3), Some(a2), Some(a1), Some(a0)) => {
                    let cp: u32 = (a3 as u32) * 4096 + (a2 as u32) * 256 + (a1 as u32) * 16 + (
                    a0 as u32);
                    if cp > 255 {
                        return None;
                    }
                    match parse_str_body(s, i + 6) {
                        Some((mut rest, e2)) => {
                            rest.insert(0, cp as u8);
                            proof {
                                assert(rest@ =~= seq![cp as u8] + rest@.drop_first());
                            }
                            Some((rest, e2))
                        },
                        None => None,
                    }
                },
                _ => None,
            }
        } else {
            let c: Option<u8> = if e == 34 {
                Some(34u8)
            } else if e == 92 {
                Some(92u8)
            } else if e == 47 {
                Some(47u8)
            } else if e == 98 {
                Some(8u8)
            } else if e == 102 {
                Some(12u8)
            } else if e == 110 {
                Some(10u8)
            } else if e == 114 {
                Some(13u8)
            } else if e == 116 {
                Some(9u8)
            } else {
                None
            };
            match c {
                Some(cb) => match parse_str_body(s, i + 2) {
                    Some((mut rest, e2)) => {
                        rest.insert(0, cb);
                        proof {
                            assert(rest@ =~= seq![cb] + rest@.drop_first());
                        }
                        Some((rest, e2))
                    },
                    None => None,
                },
                None => None,
            }
        }
    } else if b < 32 {
        None
    } else {
        match parse_str_body(s, i + 1) {
            Some((mut rest, e2)) => {
                rest.insert(0, b);
                proof {
                    assert(rest@ =~= seq![b] + rest@.drop_first());
                }
                Some((rest, e2))
            },
            None => None,
        }
    }
}

/// Parses a JSON value at `i`, after skipping whitespace.
pub fn parse_value(s: &[u8], i: usize) -> (r: Option<(Json, usize)>)
    requires
        i <= s@.len(),
    ensures
        match r {
            Some((v, e)) => spec_parse_value(s@, i as int) == Some((v@, e as int)) && i < e
                <= s@.len() && wf_jval(v@),
            None => spec_parse_value(s@, i as int) is None,
        },
    decreases s@.len() - i, 0int,
{
    let j = skip_ws(s, i);
    if j >= s.len() {
        return None;
    }
    let b = s[j];
    if b == 123 {
        match parse_fields(s, j + 1, true) {
            Some((fs, e)) => {
                let v = Json::Obj(fs);
                proof {
                    assert(v@ is Obj);
                    assert(v@->Obj_0.len() == jfields_of(fs@).len());
                    assert forall|k: int| 0 <= k < fs@.len() implies v@->Obj_0[k] == jfields_of(
                        fs@,
                    )[k] by {}
                    assert(v@->Obj_0 =~= jfields_of(fs@));
                }
                Some((v, e))
            },
            None => None,
        }
    } else if b == 91 {
        match parse_elems(s, j + 1, true) {
            Some((vs, e)) => {
                let v = Json::Arr(vs);
                proof {
                    assert(v@ is Arr);
                    assert(v@->Arr_0.len() == jvals_of(vs@).len());
                    assert forall|k: int| 0 <= k < vs@.len() implies v@->Arr_0[k] == jvals_of(
                        vs@,
                    )[k] by {}
                    assert(v@->Arr_0 =~= jvals_of(vs@));
                }
                Some((v, e))
            },
            None => None,
        }
    } else if b == 34 {
        match parse_str_body(s, j + 1) {
            Some((bs, e)) => Some((Json::Str(bs), e)),
            None => None,
        }
    } else if b == 110 {
        if s.len() - j >= 4 && s[j + 1] == 117 && s[j + 2] == 108 && s[j + 3] == 108 {
            Some((Json::Null, j + 4))
        } else {
            None
        }
    } else if b == 116 {
        if s.len() - j >= 4 && s[j + 1] == 114 && s[j + 2] == 117 && s[j + 3] == 101 {
            Some((Json::Bool(true), j + 4))
        } else {
            None
        }
    } else if b == 102 {
        if s.len() - j >= 5 && s[j + 1] == 97 && s[j + 2] == 108 && s[j + 3] == 115 && s[j + 4]
            == 101 {
            Some((Json::Bool(false), j + 5))
        } else {
            None
        }
    } else if b == 45 || (48 <= b && b <= 57) {
        parse_number(s, j)
    } else {
        None
    }
}

/// Parses array items from `i` (see [`spec_parse_elems`]).
pub fn parse_elems(s: &[u8], i: usize, first: bool) -> (r: Option<(Vec<Json>, usize)>)
    requires
        i <= s@.len(),
    ensures
        match r {
            Some((vs, e)) => spec_parse_elems(s@, i as int, first) == Some(
                (jvals_of(vs@), e as int),
            ) && i < e <= s@.len() && (forall|k: int|
                0 <= k < vs@.len() ==> wf_jval(jvals_of(vs@)[k])),
            None => spec_parse_elems(s@, i as int, first) is None,
        },
    decreases s@.len() - i, 1int,
{
    let j = skip_ws(s, i);
    if j >= s.len() {
        return None;
    }
    if s[j] == 93 {
        let vs: Vec<Json> = Vec::new();
        proof {
            assert(jvals_of(vs@) =~= Seq::<JVal>::empty());
        }
        return Some((vs, j + 1));
    }
    let has_start = if first {
        true
    } else {
        s[j] == 44
    };
    if !has_start {
        return None;
    }
    let vstart: usize = if first {
        j
    } else {
        j + 1
    };
    match parse_value(s, vstart) {
        Some((v, k)) => {
            if !(i < k && k <= s.len()) {
                return None;
            }
            match parse_elems(s, k, false) {
                Some((mut rest, e)) => {
                    let ghost old_rest: Seq<Json> = rest@;
                    let ghost gv: JVal = v@;
                    rest.insert(0, v);
                    proof {
                        assert(rest@.drop_first() =~= old_rest);
                        assert(jvals_of(rest@) =~= seq![gv] + jvals_of(old_rest));
                    }
                    Some((rest, e))
                },
                None => None,
            }
        },
        None => None,
    }
}

/// Parses object fields from `i` (see [`spec_parse_fields`]).
pub fn parse_fields(s: &[u8], i: usize, first: bool) -> (r: Option<(Vec<(Vec<u8>, Json)>, usize)>)
    requires
        i <= s@.len(),
    ensures
        match r {
            Some((fs, e)) => spec_parse_fields(s@, i as int, first) == Some(
                (jfields_of(fs@), e as int),
            ) && i < e <= s@.len() && (forall|k: int|
                0 <= k < fs@.len() ==> wf_jval(jfields_of(fs@)[k].1)),
            None => spec_parse_fields(s@, i as int, first) is None,
        },
    decreases s@.len() - i, 1int,
{
    let j = skip_ws(s, i);
    if j >= s.len() {
        return None;
    }
    if s[j] == 125 {
        let fs: Vec<(Vec<u8>, Json)> = Vec::new();
        proof {
            assert(jfields_of(fs@) =~= Seq::<(Seq<u8>, JVal)>::empty());
        }
        return Some((fs, j + 1));
    }
    let has_start = if first {
        true
    } else {
        s[j] == 44
    };
    if !has_start {
        return None;
    }
    let kstart: usize = if first {
        j
    } else {
        j + 1
    };
    let kj = skip_ws(s, kstart);
    if !(kj < s.len() && s[kj] == 34) {
        return None;
    }
    match parse_str_body(s, kj + 1) {
        Some((key, k1)) => {
            let cj = skip_ws(s, k1);
            if !(cj < s.len() && s[cj] == 58) {
                return None;
            }
            match parse_value(s, cj + 1) {
                Some((v, k2)) => {
                    if !(i < k2 && k2 <= s.len()) {
                        return None;
                    }
                    match parse_fields(s, k2, false) {
                        Some((mut rest, e)) => {
                            let ghost old_rest: Seq<(Vec<u8>, Json)> = rest@;
                            let ghost gkey: Seq<u8> = key@;
                            let ghost gv: JVal = v@;
                            rest.insert(0, (key, v));
                            proof {
                                assert(rest@.drop_first() =~= old_rest);
                                assert(jfields_of(rest@) =~= seq![(gkey, gv)] + jfields_of(
                                    old_rest,
                                ));
                            }
                            Some((rest, e))
                        },
                        None => None,
                    }
                },
                None => None,
            }
        },
        None => None,
    }
}

/// Parses a whole buffer as one JSON value with only whitespace around it.
pub fn parse_json(s: &[u8]) -> (r: Option<Json>)
    ensures
        match r {
            Some(v) => spec_parse_json(s@) == Some(v@) && wf_jval(v@),
            None => spec_parse_json(s@) is None,
        },
{
    match parse_value(s, 0) {
        Some((v, e)) => {
            let t = skip_ws(s, e);
            if t == s.len() {
                Some(v)
            } else {
                None
            }
        },
        None => None,
    }
}

/// Appends the decimal digits of `n` to `out`.
pub fn encode_u64(n: u64, out: &mut Vec<u8>)
    ensures
        final(out)@ == old(out)@ + spec_dec_digits(n as nat),
    decreases n,
{
    if n < 10 {
        out.push(48 + (n as u8));
        proof {
            assert(out@ =~= old(out)@ + spec_dec_digits(n as nat));
        }
    } else {
        encode_u64(n / 10, out);
        out.push(48 + ((n % 10) as u8));
        proof {
            assert(out@ =~= old(out)@ + spec_dec_digits(n as nat));
        }
    }
}

/// Appends the canonical encoding of an in-range integer to `out`.
pub fn encode_int(n: i128, out: &mut Vec<u8>)
    requires
        int_in_wire_range(n),
    ensures
        final(out)@ == old(out)@ + spec_enc_int(n),
{
    if n < 0 {
        out.push(45u8);
        let mag: u64 = (-n) as u64;
        encode_u64(mag, out);
        proof {
            assert(out@ =~= old(out)@ + spec_enc_int(n));
        }
    } else {
        encode_u64(n as u64, out);
    }
}

/// The lower-case hexadecimal digit for `k < 16`.
pub fn hex_digit(k: u8) -> (r: u8)
    requires
        k < 16,
    ensures
        r == spec_hex_digit(k as nat),
{
    if k < 10 {
        48 + k
    } else {
        87 + k
    }
}

/// Appends the canonical quoted, escaped encoding of a string to `out`.
#[verifier::loop_isolation(false)]
pub fn encode_string(s: &Vec<u8>, out: &mut Vec<u8>)
    ensures
        final(out)@ == old(out)@ + spec_enc_string(s@),
{
    out.push(34u8);
    let ghost base: Seq<u8> = out@;
    let mut k: usize = 0;
    while k < s.len()
        invariant
            k <= s.len(),
            out@ + spec_enc_str_body(s@, k as int) == base + spec_enc_str_body(s@, 0),
        decreases s.len() - k,
    {
        let ghost before: Seq<u8> = out@;
        let b = s[k];
        if b == 34 {
            out.push(92u8);
            out.push(34u8);
        } else if b == 92 {
            out.push(92u8);
            out.push(92u8);
        } else if b < 32 {
            out.push(92u8);
            out.push(117u8);
            out.push(48u8);
            out.push(48u8);
            out.push(hex_digit(b / 16));
            out.push(hex_digit(b % 16));
        } else {
            out.push(b);
        }
        proof {
            assert(out@ =~= before + spec_esc_byte(s@[k as int]));
            assert(out@ + spec_enc_str_body(s@, k + 1 as int) =~= before + spec_enc_str_body(
                s@,
                k as int,
            ));
        }
        k = k + 1;
    }
    out.push(34u8);
    proof {
        assert(spec_enc_str_body(s@, s@.len() as int) =~= Seq::<u8>::empty());
        assert(out@ =~= old(out)@ + spec_enc_string(s@));
    }
}

/// Appends the canonical encoding of a well-formed value to `out`.
#[verifier::loop_isolation(false)]
pub fn encode_value(v: &Json, out: &mut Vec<u8>)
    requires
        wf_jval(v@),
    ensures
        final(out)@ == old(out)@ + spec_enc_value(v@),
    decreases v,
{
    match v {
        Json::Null => {
            out.push(110u8);
            out.push(117u8);
            out.push(108u8);
            out.push(108u8);
            proof {
                assert(out@ =~= old(out)@ + spec_enc_value(v@));
            }
        },
        Json::Bool(b) => {
            if *b {
                out.push(116u8);
                out.push(114u8);
                out.push(117u8);
                out.push(101u8);
            } else {
                out.push(102u8);
                out.push(97u8);
                out.push(108u8);
                out.push(115u8);
                out.push(101u8);
            }
            proof {
                assert(out@ =~= old(out)@ + spec_enc_value(v@));
            }
        },
        Json::Int(n) => {
            encode_int(*n, out);
        },
        Json::Str(s) => {
            encode_string(s, out);
        },
        Json::Arr(items) => {
            let ghost va: Seq<JVal> = Seq::new(
                items@.len(),
                |k: int|
                    if 0 <= k < items@.len() {
                        items@[k]@
                    } else {
                        JVal::Null
                    },
            );
            proof {
                assert(v@ is Arr);
                assert(v@->Arr_0.len() == items@.len());
                assert forall|i: int| 0 <= i < items@.len() implies v@->Arr_0[i] == va[i] by {}
                assert(v@->Arr_0 =~= va);
                assert(v@ == JVal::Arr(va));
            }
            out.push(91u8);
            let ghost base: Seq<u8> = out@;
            let mut k: usize = 0;
            while k < items.len()
                invariant
                    k <= items.len(),
                    out@ + spec_enc_items(va, k as int) == base + spec_enc_items(va, 0),
                decreases items.len() - k,
            {
                let ghost before: Seq<u8> = out@;
                if k > 0 {
                    out.push(44u8);
                }
                proof {
                    assert(va[k as int] == items@[k as int]@);
                    assert(wf_jval(va[k as int]));
                }
                encode_value(&items[k], out);
                proof {
                    assert(out@ + spec_enc_items(va, k + 1 as int) =~= before + spec_enc_items(
                        va,
                        k as int,
                    ));
                }
                k = k + 1;
            }
            out.push(93u8);
            proof {
                assert(spec_enc_items(va, va.len() as int) =~= Seq::<u8>::empty());
                assert(out@ =~= old(out)@ + spec_enc_value(v@));
            }
        },
        Json::Obj(fields) => {
            let ghost fa: Seq<(Seq<u8>, JVal)> = Seq::new(
                fields@.len(),
                |k: int|
                    if 0 <= k < fields@.len() {
                        (fields@[k].0@, fields@[k].1@)
                    } else {
                        (Seq::empty(), JVal::Null)
                    },
            );
            proof {
                assert(v@ is Obj);
                assert(v@->Obj_0.len() == fields@.len());
                assert forall|i: int| 0 <= i < fields@.len() implies v@->Obj_0[i] == fa[i] by {}
                assert(v@->Obj_0 =~= fa);
                assert(v@ == JVal::Obj(fa));
            }
            out.push(123u8);
            let ghost base: Seq<u8> = out@;
            let mut k: usize = 0;
            while k < fields.len()
                invariant
                    k <= fields.len(),
                    out@ + spec_enc_fields(fa, k as int) == base + spec_enc_fields(fa, 0),
                decreases fields.len() - k,
            {
                let ghost before: Seq<u8> = out@;
                if k > 0 {
                    out.push(44u8);
                }
                proof {
                    assert(fa[k as int].0 == fields@[k as int].0@);
                    assert(fa[k as int].1 == fields@[k as int].1@);
                    assert(wf_jval(fa[k as int].1));
                }
                let pair = &fields[k];
                encode_string(&pair.0, out);
                out.push(58u8);
                encode_value(&pair.1, out);
                proof {
                    assert(out@ + spec_enc_fields(fa, k + 1 as int) =~= before + spec_enc_fields(
                        fa,
                        k as int,
                    ));
                }
                k = k + 1;
            }
            out.push(125u8);
            proof {
                assert(spec_enc_fields(fa, fa.len() as int) =~= Seq::<u8>::empty());
                assert(out@ =~= old(out)@ + spec_enc_value(v@));
            }
        },
    }
}

/// The value of a digit run `d`, folded onto `acc` most significant first.
pub open spec fn val_of(d: Seq<u8>, acc: nat) -> nat
    decreases d.len(),
{
    if d.len() == 0 {
        acc
    } else {
        val_of(d.drop_first(), acc * 10 + (d[0] - 48) as nat)
    }
}

/// The decimal digits of `n` are digits, and never start with `0` unless
/// `n` is zero.
pub proof fn lemma_dec_digits_shape(n: nat)
    ensures
        spec_dec_digits(n).len() >= 1,
        forall|k: int|
            0 <= k < spec_dec_digits(n).len() ==> is_digit(#[trigger] spec_dec_digits(n)[k]),
        n > 0 ==> spec_dec_digits(n)[0] != 48,
        n == 0 ==> spec_dec_digits(n) == seq![48u8],
    decreases n,
{
    if n >= 10 {
        lemma_dec_digits_shape(n / 10);
    }
}

/// Folding one more digit onto the end of a run.
pub proof fn lemma_val_of_push(d: Seq<u8>, b: u8, acc: nat)
    requires
        48 <= b,
    ensures
        val_of(d.push(b), acc) == val_of(d, acc) * 10 + (b - 48) as nat,
    decreases d.len(),
{
    if d.len() == 0 {
        assert(d.push(b)[0] == b);
        assert(d.push(b).drop_first() =~= Seq::<u8>::empty());
        assert(val_of(d.push(b), acc) == val_of(Seq::<u8>::empty(), acc * 10 + (b - 48) as nat));
    } else {
        assert(d.push(b)[0] == d[0]);
        assert(d.push(b).drop_first() =~= d.drop_first().push(b));
        lemma_val_of_push(d.drop_first(), b, acc * 10 + (d[0] - 48) as nat);
    }
}

/// The digit fold inverts decimal printing.
pub proof fn lemma_val_of_dec_digits(n: nat)
    ensures
        val_of(spec_dec_digits(n), 0nat) == n,
    decreases n,
{
    if n < 10 {
        let d = seq![(48 + n) as u8];
        assert(d[0] == (48 + n) as u8);
        assert(d.drop_first() =~= Seq::<u8>::empty());
        assert(val_of(d, 0nat) == val_of(Seq::<u8>::empty(), 0nat * 10 + ((48 + n) as u8
            - 48) as nat));
        assert(val_of(d, 0nat) == n);
    } else {
        lemma_val_of_dec_digits(n / 10);
        lemma_val_of_push(spec_dec_digits(n / 10), (48 + n % 10) as u8, 0nat);
        assert(n / 10 * 10 + n % 10 == n) by {
            vstd::arithmetic::div_mod::lemma_fundamental_div_mod(n as int, 10int);
        }
    }
}

/// Parsing a digit run embedded in `s` finds exactly that run.
pub proof fn lemma_parse_digit_run(s: Seq<u8>, i: int, d: Seq<u8>)
    requires
        0 <= i,
        i + d.len() <= s.len(),
        forall|k: int| 0 <= k < d.len() ==> is_digit(#[trigger] d[k]),
        s.subrange(i, i + d.len()) == d,
        i + d.len() == s.len() || !is_digit(s[i + d.len()]),
    ensures
        spec_digits_end(s, i) == i + d.len(),
        forall|acc: nat| #[trigger] spec_digits_val(s, i, acc) == val_of(d, acc),
    decreases d.len(),
{
    if d.len() == 0 {
        assert(i == s.len() || !is_digit(s[i]));
    } else {
        assert(s[i] == s.subrange(i, i + d.len())[0]);
        assert(s[i] == d[0]);
        assert(s.subrange(i + 1, i + 1 + d.drop_first().len()) =~= d.drop_first());
        lemma_parse_digit_run(s, i + 1, d.drop_first());
        assert forall|acc: nat| #[trigger] spec_digits_val(s, i, acc) == val_of(d, acc) by {
            assert(spec_digits_val(s, i, acc) == spec_digits_val(
                s,
                i + 1,
                acc * 10 + (s[i] - 48) as nat,
            ));
        }
    }
}

/// Whether a value encoding may stand directly before position `e`:
/// the byte at `e` must not extend a number token.
pub open spec fn ok_follow(s: Seq<u8>, e: int) -> bool {
    e == s.len() || (!is_digit(s[e]) && s[e] != 46 && s[e] != 101 && s[e] != 69)
}

/// Parsing an embedded canonical integer finds exactly that integer.
pub proof fn lemma_number_round(n: i128, s: Seq<u8>, i: int)
    requires
        int_in_wire_range(n),
        0 <= i,
        i + spec_enc_int(n).len() <= s.len(),
        s.subrange(i, i + spec_enc_int(n).len()) == spec_enc_int(n),
        ok_follow(s, i + spec_enc_int(n).len()),
    ensures
        spec_parse_number(s, i) == Some((JVal::Int(n), i + spec_enc_int(n).len())),
{
    let enc = spec_enc_int(n);
    let mag: nat = if n < 0 {
        (-(n as int)) as nat
    } else {
        n as nat
    };
    let d = spec_dec_digits(mag);
    lemma_dec_digits_shape(mag);
    let st: int = if n < 0 {
        i + 1
    } else {
        i
    };
    assert forall|k: int| 0 <= k < enc.len() implies s[i + k] == enc[k] by {
        assert(s.subrange(i, i + enc.len())[k] == s[i + k]);
    }
    if n < 0 {
        assert(s[i + 0] == enc[0]);
        assert(s[i] == 45);
        assert forall|k: int| 0 <= k < d.len() implies s[st + k] == d[k] by {
            assert(s[i + (1 + k)] == enc[1 + k]);
            assert(enc[1 + k] == d[k]);
        }
    }
    assert(s.subrange(st, st + d.len()) =~= d);
    assert(is_digit(d[0]));
    assert(s[st] == d[0]);
    assert(!is_digit(45u8));
    lemma_parse_digit_run(s, st, d);
    lemma_val_of_dec_digits(mag);
    assert(spec_digits_val(s, st, 0nat) == mag);
    assert(spec_digits_end(s, st) == st + d.len());
    if mag == 0 {
        assert(st + 1 == s.len() || !is_digit(s[st + 1]));
    } else {
        assert(s[st] != 48);
    }
    assert(spec_parse_number(s, i) == Some((JVal::Int(n), i + enc.len())));
}

/// Escaping inverts: each escape re-reads as its byte.
pub proof fn lemma_hex_digit_val(k: nat)
    requires
        k < 16,
    ensures
        spec_hex_val(spec_hex_digit(k)) == Some(k),
{
}

/// Parsing an embedded escaped string body (from byte `k` of `body` on,
/// followed by the closing quote) yields the remaining raw bytes.
pub proof fn lemma_str_round(body: Seq<u8>, k: int, s: Seq<u8>, i: int)
    requires
        0 <= k <= body.len(),
        0 <= i,
        i + spec_enc_str_body(body, k).len() + 1 <= s.len(),
        s.subrange(i, i + spec_enc_str_body(body, k).len() + 1) == spec_enc_str_body(body, k)
            + seq![34u8],
    ensures
        spec_parse_str_body(s, i) == Some(
            (body.skip(k), i + spec_enc_str_body(body, k).len() + 1),
        ),
    decreases body.len() - k,
{
    let enc = spec_enc_str_body(body, k) + seq![34u8];
    assert forall|t: int| 0 <= t < enc.len() implies s[i + t] == enc[t] by {
        assert(s.subrange(i, i + enc.len())[t] == s[i + t]);
    }
    if k >= body.len() {
        assert(s[i + 0] == enc[0]);
        assert(s[i] == 34);
        assert(body.skip(k) =~= Seq::<u8>::empty());
    } else {
        let b = body[k];
        let esc = spec_esc_byte(b);
        let rest = spec_enc_str_body(body, k + 1);
        assert(spec_enc_str_body(body, k) == esc + rest);
        let i2 = i + esc.len();
        assert forall|t: int| 0 <= t < esc.len() implies s[i + t] == esc[t] by {
            assert(s[i + t] == enc[t]);
            assert(enc[t] == esc[t]);
        }
        assert(s[i + 0] == esc[0]);
        assert(s[i] == esc[0]);
        assert(s.subrange(i2, i2 + rest.len() + 1) =~= rest + seq![34u8]) by {
            assert forall|t: int| 0 <= t < rest.len() + 1 implies s[i2 + t] == (rest
                + seq![34u8])[t] by {
                assert(enc[esc.len() + t] == (rest + seq![34u8])[t]);
            }
        }
        lemma_str_round(body, k + 1, s, i2);
        assert(body.skip(k) =~= seq![b] + body.skip(k + 1));
        if b == 34 || b == 92 {
            assert(s[i] == 92);
            assert(spec_parse_str_body(s, i) == Some((body.skip(k), i + spec_enc_str_body(body, k).len() + 1)));
        } else if b < 32 {
            assert(s[i] == 92 && s[i + 1] == 117 && s[i + 2] == 48 && s[i + 3] == 48);
            assert(s[i + 4] == spec_hex_digit((b / 16) as nat));
            assert(s[i + 5] == spec_hex_digit((b % 16) as nat));
            lemma_hex_digit_val((b / 16) as nat);
            lemma_hex_digit_val((b % 16) as nat);
            assert(spec_hex_val(s[i + 2]) == Some(0nat));
            assert(spec_hex_val(s[i + 3]) == Some(0nat));
            let cp: nat = 0nat * 4096 + 0nat * 256 + (b / 16) as nat * 16 + (b % 16) as nat;
            assert(cp == b) by {
                vstd::arithmetic::div_mod::lemma_fundamental_div_mod(b as int, 16int);
            }
            assert(spec_parse_str_body(s, i) == Some((body.skip(k), i + spec_enc_str_body(body, k).len() + 1)));
        } else {
            assert(s[i] == b && b != 34 && b != 92 && b >= 32);
            assert(spec_parse_str_body(s, i) == Some((body.skip(k), i + spec_enc_str_body(body, k).len() + 1)));
        }
    }
}

/// Splitting an embedded concatenation into its two embedded parts.
pub proof fn lemma_split_at(s: Seq<u8>, i: int, a: Seq<u8>, b: Seq<u8>)
    requires
        0 <= i,
        i + a.len() + b.len() <= s.len(),
        s.subrange(i, i + a.len() + b.len()) == a + b,
    ensures
        s.subrange(i, i + a.len()) == a,
        s.subrange(i + a.len(), i + a.len() + b.len()) == b,
{
    let whole = s.subrange(i, i + a.len() + b.len());
    assert forall|t: int| 0 <= t < a.len() implies s.subrange(i, i + a.len())[t] == a[t] by {
        assert(whole[t] == (a + b)[t]);
    }
    assert(s.subrange(i, i + a.len()) =~= a);
    assert forall|t: int|
        0 <= t < b.len() implies s.subrange(i + a.len(), i + a.len() + b.len())[t] == b[t] by {
        assert(whole[a.len() + t] == (a + b)[a.len() + t]);
    }
    assert(s.subrange(i + a.len(), i + a.len() + b.len()) =~= b);
}

/// The first byte of a value encoding: never whitespace nor a closing or
/// separating punctuation byte.
pub proof fn lemma_enc_value_first(v: JVal)
    ensures
        spec_enc_value(v).len() >= 1,
        !is_ws(spec_enc_value(v)[0]),
        spec_enc_value(v)[0] != 93,
        spec_enc_value(v)[0] != 125,
        spec_enc_value(v)[0] != 44,
        spec_enc_value(v)[0] != 58,
{
    match v {
        JVal::Int(n) => {
            let mag: nat = if n < 0 {
                (-(n as int)) as nat
            } else {
                n as nat
            };
            lemma_dec_digits_shape(mag);
            if n < 0 {
                assert(spec_enc_value(v)[0] == 45);
            } else {
                assert(spec_enc_value(v)[0] == spec_dec_digits(mag)[0]);
                assert(is_digit(spec_enc_value(v)[0]));
            }
        },
        JVal::Null => {
            assert(spec_enc_value(v)[0] == 110);
        },
        JVal::Bool(b) => {
            assert(spec_enc_value(v)[0] == (if b {
                116u8
            } else {
                102u8
            }));
        },
        JVal::Str(bs) => {
            assert(spec_enc_value(v)[0] == 34);
        },
        JVal::Arr(items) => {
            assert(spec_enc_value(v)[0] == 91);
        },
        JVal::Obj(fields) => {
            assert(spec_enc_value(v)[0] == 123);
        },
    }
}

/// Parsing an embedded canonical value encoding finds exactly that value.
pub proof fn lemma_value_round(v: JVal, s: Seq<u8>, i: int)
    requires
        wf_jval(v),
        0 <= i,
        i + spec_enc_value(v).len() <= s.len(),
        s.subrange(i, i + spec_enc_value(v).len()) == spec_enc_value(v),
        ok_follow(s, i + spec_enc_value(v).len()),
    ensures
        spec_parse_value(s, i) == Some((v, i + spec_enc_value(v).len())),
    decreases v, 0int,
{
    let enc = spec_enc_value(v);
    assert forall|t: int| 0 <= t < enc.len() implies s[i + t] == enc[t] by {
        assert(s.subrange(i, i + enc.len())[t] == s[i + t]);
    }
    lemma_enc_value_first(v);
    assert(s[i + 0] == enc[0]);
    assert(spec_ws(s, i) == i);
    match v {
        JVal::Null => {
            assert(s[i + 1] == enc[1] && s[i + 2] == enc[2] && s[i + 3] == enc[3]);
        },
        JVal::Bool(b) => {
            if b {
                assert(s[i + 1] == enc[1] && s[i + 2] == enc[2] && s[i + 3] == enc[3]);
            } else {
                assert(s[i + 1] == enc[1] && s[i + 2] == enc[2] && s[i + 3] == enc[3] && s[i + 4]
                    == enc[4]);
            }
        },
        JVal::Int(n) => {
            lemma_number_round(n, s, i);
            assert(s[i] != 123 && s[i] != 91 && s[i] != 34 && s[i] != 110 && s[i] != 116 && s[i]
                != 102);
            assert(s[i] == 45 || is_digit(s[i]));
        },
        JVal::Str(bs) => {
            assert(s[i] == 34);
            let body = spec_enc_str_body(bs, 0);
            assert(enc =~= seq![34u8] + (body + seq![34u8]));
            lemma_split_at(s, i, seq![34u8], body + seq![34u8]);
            lemma_str_round(bs, 0, s, i + 1);
            assert(bs.skip(0) =~= bs);
        },
        JVal::Arr(items) => {
            assert(s[i] == 91);
            let inner = spec_enc_items(items, 0);
            assert(enc =~= seq![91u8] + (inner + seq![93u8]));
            lemma_split_at(s, i, seq![91u8], inner + seq![93u8]);
            lemma_elems_round(items, 0, s, i + 1);
            assert(items.skip(0) =~= items);
        },
        JVal::Obj(fields) => {
            assert(s[i] == 123);
            let inner = spec_enc_fields(fields, 0);
            assert(enc =~= seq![123u8] + (inner + seq![125u8]));
            lemma_split_at(s, i, seq![123u8], inner + seq![125u8]);
            lemma_fields_round(fields, 0, s, i + 1);
            assert(fields.skip(0) =~= fields);
        },
    }
}

/// Parsing embedded encoded array items (from item `k` on, followed by the
/// closing bracket) yields the remaining items.
pub proof fn lemma_elems_round(items: Seq<JVal>, k: int, s: Seq<u8>, i: int)
    requires
        forall|j: int| 0 <= j < items.len() ==> wf_jval(#[trigger] items[j]),
        0 <= k <= items.len(),
        0 <= i,
        i + spec_enc_items(items, k).len() + 1 <= s.len(),
        s.subrange(i, i + spec_enc_items(items, k).len() + 1) == spec_enc_items(items, k)
            + seq![93u8],
    ensures
        spec_parse_elems(s, i, k == 0) == Some(
            (items.skip(k), i + spec_enc_items(items, k).len() + 1),
        ),
    decreases items, items.len() - k,
{
    let enck = spec_enc_items(items, k);
    let enc = enck + seq![93u8];
    assert forall|t: int| 0 <= t < enc.len() implies s[i + t] == enc[t] by {
        assert(s.subrange(i, i + enc.len())[t] == s[i + t]);
    }
    if k == items.len() {
        assert(s[i + 0] == enc[0]);
        assert(s[i] == 93);
        assert(spec_ws(s, i) == i);
        assert(items.skip(k) =~= Seq::<JVal>::empty());
    } else {
        let sep: Seq<u8> = if k > 0 {
            seq![44u8]
        } else {
            Seq::<u8>::empty()
        };
        let ev = spec_enc_value(items[k]);
        let rest = spec_enc_items(items, k + 1);
        assert(enck == sep + ev + rest);
        assert(enc =~= sep + (ev + (rest + seq![93u8])));
        lemma_split_at(s, i, sep, ev + (rest + seq![93u8]));
        let vstart = i + sep.len();
        lemma_split_at(s, vstart, ev, rest + seq![93u8]);
        let m = vstart + ev.len();
        lemma_enc_value_first(items[k]);
        // the byte after the element never extends a number token
        assert(s.subrange(m, m + rest.len() + 1)[0] == s[m + 0]);
        if k + 1 == items.len() {
            assert(s[m] == 93);
        } else {
            assert(rest[0] == 44);
            assert(s[m] == 44);
        }
        assert(ok_follow(s, m));
        lemma_value_round(items[k], s, vstart);
        lemma_elems_round(items, k + 1, s, m);
        assert(items.skip(k) =~= seq![items[k]] + items.skip(k + 1));
        if k > 0 {
            assert(s.subrange(i, i + 1)[0] == s[i + 0]);
            assert(s[i] == 44);
            assert(spec_ws(s, i) == i);
            assert(spec_parse_elems(s, i, false) == Some((items.skip(k), i + enck.len() + 1)));
        } else {
            assert(s[i + 0] == ev[0]);
            assert(spec_ws(s, i) == i);
            assert(s[i] != 93);
            assert(spec_parse_elems(s, i, true) == Some((items.skip(k), i + enck.len() + 1)));
        }
    }
}

/// Parsing embedded encoded object fields (from field `k` on, followed by
/// the closing brace) yields the remaining fields.
#[verifier::rlimit(80)]
#[verifier::spinoff_prover]
pub proof fn lemma_fields_round(fields: Seq<(Seq<u8>, JVal)>, k: int, s: Seq<u8>, i: int)
    requires
        forall|j: int| 0 <= j < fields.len() ==> wf_jval(#[trigger] fields[j].1),
        0 <= k <= fields.len(),
        0 <= i,
        i + spec_enc_fields(fields, k).len() + 1 <= s.len(),
        s.subrange(i, i + spec_enc_fields(fields, k).len() + 1) == spec_enc_fields(fields, k)
            + seq![125u8],
    ensures
        spec_parse_fields(s, i, k == 0) == Some(
            (fields.skip(k), i + spec_enc_fields(fields, k).len() + 1),
        ),
    decreases fields, fields.len() - k,
{
    let enck = spec_enc_fields(fields, k);
    let enc = enck + seq![125u8];
    assert forall|t: int| 0 <= t < enc.len() implies s[i + t] == enc[t] by {
        assert(s.subrange(i, i + enc.len())[t] == s[i + t]);
    }
    if k == fields.len() {
        assert(s[i + 0] == enc[0]);
        assert(s[i] == 125);
        assert(spec_ws(s, i) == i);
        assert(fields.skip(k) =~= Seq::<(Seq<u8>, JVal)>::empty());
    } else {
        let sep: Seq<u8> = if k > 0 {
            seq![44u8]
        } else {
            Seq::<u8>::empty()
        };
        let key = fields[k].0;
        let ks = spec_enc_string(key);
        let body = spec_enc_str_body(key, 0);
        let ev = spec_enc_value(fields[k].1);
        let rest = spec_enc_fields(fields, k + 1);
        assert(enck == sep + ks + seq![58u8] + ev + rest);
        assert(enc =~= sep + (ks + (seq![58u8] + (ev + (rest + seq![125u8])))));
        lemma_split_at(s, i, sep, ks + (seq![58u8] + (ev + (rest + seq![125u8]))));
        let kstart = i + sep.len();
        lemma_split_at(s, kstart, ks, seq![58u8] + (ev + (rest + seq![125u8])));
        let k1 = kstart + ks.len();
        lemma_split_at(s, k1, seq![58u8], ev + (rest + seq![125u8]));
        lemma_split_at(s, k1 + 1, ev, rest + seq![125u8]);
        let m = k1 + 1 + ev.len();
        // the key string
        assert(ks =~= seq![34u8] + (body + seq![34u8]));
        lemma_split_at(s, kstart, seq![34u8], body + seq![34u8]);
        assert(s.subrange(kstart, kstart + 1)[0] == s[kstart + 0]);
        assert(s[kstart] == 34);
        lemma_str_round(key, 0, s, kstart + 1);
        assert(key.skip(0) =~= key);
        // the colon
        assert(s.subrange(k1, k1 + 1)[0] == s[k1 + 0]);
        assert(s[k1] == 58);
        assert(spec_ws(s, k1) == k1);
        // the value, followed by a byte that never extends a number token
        lemma_enc_value_first(fields[k].1);
        assert(s.subrange(m, m + rest.len() + 1)[0] == s[m + 0]);
        if k + 1 == fields.len() {
            assert(s[m] == 125);
        } else {
            assert(rest[0] == 44);
            assert(s[m] == 44);
        }
        assert(ok_follow(s, m));
        lemma_value_round(fields[k].1, s, k1 + 1);
        lemma_fields_round(fields, k + 1, s, m);
        assert(fields.skip(k) =~= seq![(fields[k].0, fields[k].1)] + fields.skip(k + 1));
        assert(spec_ws(s, kstart) == kstart);
        if k > 0 {
            assert(s.subrange(i, i + 1)[0] == s[i + 0]);
            assert(s[i] == 44);
            assert(spec_ws(s, i) == i);
            assert(spec_parse_fields(s, i, false) == Some((fields.skip(k), i + enck.len() + 1)));
        } else {
            assert(s[i + 0] == enc[0]);
            assert(s[i] == 34);
            assert(spec_ws(s, i) == i);
            assert(s[i] != 125);
            assert(spec_parse_fields(s, i, true) == Some((fields.skip(k), i + enck.len() + 1)));
        }
    }
}

/// The round trip at the buffer level: parsing a canonical encoding gives
/// back the encoded value.
pub proof fn lemma_json_round_trip(v: JVal)
    requires
        wf_jval(v),
    ensures
        spec_parse_json(spec_enc_value(v)) == Some(v),
{
    let s = spec_enc_value(v);
    assert(s.subrange(0, s.len() as int) =~= s);
    lemma_value_round(v, s, 0);
    assert(spec_ws(s, s.len() as int) == s.len());
}

/// A copy of a byte vector.
pub fn clone_bytes(s: &Vec<u8>) -> (r: Vec<u8>)
    ensures
        r@ == s@,
{
    let mut out: Vec<u8> = Vec::new();
    let mut k: usize = 0;
    while k < s.len()
        invariant
            k <= s.len(),
            out@ == s@.subrange(0, k as int),
        decreases s.len() - k,
    {
        out.push(s[k]);
        proof {
            assert(out@ =~= s@.subrange(0, k + 1 as int));
        }
        k = k + 1;
    }
    proof {
        assert(out@ =~= s@);
    }
    out
}

/// True when two byte slices hold the same bytes.
pub fn bytes_eq(a: &[u8], b: &[u8]) -> (r: bool)
    ensures
        r == (a@ == b@),
{
    if a.len() != b.len() {
        proof {
            assert(a@.len() != b@.len());
        }
        return false;
    }
    let mut k: usize = 0;
    while k < a.len()
        invariant
            k <= a.len(),
            a@.len() == b@.len(),
            forall|j: int| 0 <= j < k as int ==> a@[j] == b@[j],
        decreases a.len() - k,
    {
        if a[k] != b[k] {
            return false;
        }
        k = k + 1;
    }
    proof {
        assert(a@ =~= b@);
    }
    true
}

} // verus!
