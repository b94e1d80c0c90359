//! Parser for the canonical JSON text of [`crate::json`].
//!
//! The contracts here state completeness: the parser accepts every canonical
//! rendering and returns a value with the rendered model. Together with
//! `write_value`'s exact rendering this yields the encode/decode round trip.

use vstd::prelude::*;
use crate::json::{
    JsonValue, JsonVal, jview, jview_items, jview_fields, lemma_jview_items_index,
    lemma_jview_fields_index, representable, esc_char, esc_str, ser_string, ser_int, ser_val,
    ser_items, ser_fields,
};
use crate::numfmt::{
    dec_of, is_dec_digit, all_dec_digits, lemma_dec_of_digits, parse_dec, hex_digit,
    parse_hex_char,
};
use crate::strutil::{chars_to_string, str_to_chars, bytes_to_string};

verus! {

/// The rendering of `w` lies at position `i` of `s`.
pub open spec fn ser_at(s: Seq<char>, i: int, w: JsonVal) -> bool {
    &&& 0 <= i
    &&& i + ser_val(w).len() <= s.len()
    &&& s.subrange(i, i + ser_val(w).len()) == ser_val(w)
}

/// Position `j` does not continue a digit run.
pub open spec fn num_boundary(s: Seq<char>, j: int) -> bool {
    j == s.len() || !is_dec_digit(s[j])
}

/// What a complete parse starting at `i` must return for model `w`.
pub open spec fn parsed_to(s: Seq<char>, i: int, w: JsonVal, r: Option<(JsonValue, usize)>) -> bool {
    match r {
        Some(p) => jview(p.0) == w && p.1 == i + ser_val(w).len(),
        None => false,
    }
}

/// The escaped body of `content` followed by a closing quote lies at `i`.
pub open spec fn str_body_at(s: Seq<char>, i: int, content: Seq<char>) -> bool {
    &&& 0 <= i
    &&& i + esc_str(content).len() + 1 <= s.len()
    &&& s.subrange(i, i + esc_str(content).len()) == esc_str(content)
    &&& s[i + esc_str(content).len()] == '"'
}

/// A non-empty item list rendering followed by `]` lies at `i`.
pub open spec fn items_at(s: Seq<char>, i: int, ws: Seq<JsonVal>) -> bool {
    &&& 0 <= i
    &&& ws.len() >= 1
    &&& i + ser_items(ws).len() + 1 <= s.len()
    &&& s.subrange(i, i + ser_items(ws).len()) == ser_items(ws)
    &&& s[i + ser_items(ws).len()] == ']'
}

/// A non-empty field list rendering followed by `}` lies at `i`.
pub open spec fn fields_at(s: Seq<char>, i: int, ws: Seq<(Seq<char>, JsonVal)>) -> bool {
    &&& 0 <= i
    &&& ws.len() >= 1
    &&& i + ser_fields(ws).len() + 1 <= s.len()
    &&& s.subrange(i, i + ser_fields(ws).len()) == ser_fields(ws)
    &&& s[i + ser_fields(ws).len()] == '}'
}

/// Every rendering is non-empty and its first character names the form.
pub proof fn lemma_ser_first(w: JsonVal)
    ensures
        ser_val(w).len() >= 1,
        w is Null ==> ser_val(w)[0] == 'n',
        w matches JsonVal::Bool(b) ==> ser_val(w)[0] == (if b { 't' } else { 'f' }),
        w matches JsonVal::Int(n) && n >= 0 ==> is_dec_digit(ser_val(w)[0]),
        w matches JsonVal::Int(n) && n < 0 ==> ser_val(w)[0] == '-',
        w is Str ==> ser_val(w)[0] == '"',
        w is Arr ==> ser_val(w)[0] == '[',
        w is Obj ==> ser_val(w)[0] == '{',
{
    match w {
        JsonVal::Int(n) => {
            if n >= 0 {
                lemma_dec_of_digits(n as nat);
            } else {
                lemma_dec_of_digits((-n) as nat);
            }
        },
        _ => {},
    }
}

/// Split a known two-part subrange into its parts.
pub proof fn lemma_split2(s: Seq<char>, i: int, a: Seq<char>, b: Seq<char>)
    requires
        0 <= i,
        i + a.len() + b.len() <= s.len(),
        s.subrange(i, i + a.len() + b.len()) == a + b,
    ensures
        s.subrange(i, i + a.len()) == a,
        s.subrange(i + a.len(), i + a.len() + b.len()) == b,
{
    let whole = s.subrange(i, i + a.len() + b.len());
    assert forall|k: int| 0 <= k < a.len() implies s.subrange(i, i + a.len())[k] == a[k] by {
        assert(whole[k] == (a + b)[k]);
    }
    assert(s.subrange(i, i + a.len()) =~= a);
    assert forall|k: int| 0 <= k < b.len() implies s.subrange(
        i + a.len(),
        i + a.len() + b.len(),
    )[k] == b[k] by {
        assert(whole[a.len() + k] == (a + b)[a.len() + k]);
    }
    assert(s.subrange(i + a.len(), i + a.len() + b.len()) =~= b);
}

/// First index at or after `i` that does not hold a decimal digit.
fn scan_digits(s: &Vec<char>, i: usize) -> (j: usize)
    requires
        i <= s@.len(),
    ensures
        i <= j <= s@.len(),
        forall|k: int| i <= k < j ==> is_dec_digit(s@[k]),
        num_boundary(s@, j as int),
{
    let mut j: usize = i;
    while j < s.len()
        invariant
            i <= j <= s@.len(),
            forall|k: int| i <= k < j ==> is_dec_digit(s@[k]),
        decreases s@.len() - j,
    {
        let c = s[j];
        if !('0' <= c && c <= '9') {
            return j;
        }
        j = j + 1;
    }
    j
}

/// Copy of the characters from an index to the end.
pub fn chars_suffix(s: &Vec<char>, start: usize) -> (r: Vec<char>)
    requires
        start <= s@.len(),
    ensures
        r@ == s@.skip(start as int),
{
    let r = chars_subrange(s, start, s.len());
    proof {
        assert(s@.subrange(start as int, s@.len() as int) =~= s@.skip(start as int));
    }
    r
}

/// Copy of a character subrange.
fn chars_subrange(s: &Vec<char>, start: usize, end: usize) -> (r: Vec<char>)
    requires
        start <= end <= s@.len(),
    ensures
        r@ == s@.subrange(start as int, end as int),
{
    let mut out: Vec<char> = Vec::new();
    let mut i: usize = start;
    while i < end
        invariant
            start <= i <= end <= s@.len(),
            out@ == s@.subrange(start as int, i as int),
        decreases end - i,
    {
        out.push(s[i]);
        proof {
            assert(out@ =~= s@.subrange(start as int, i + 1));
        }
        i = i + 1;
    }
    out
}

/// Parse a canonical integer literal beginning at `i`.
#[verifier::loop_isolation(false)]
#[verifier::rlimit(60)]
fn parse_number(s: &Vec<char>, i: usize) -> (r: Option<(JsonValue, usize)>)
    requires
        i <= s@.len(),
    ensures
        r matches Some(p) ==> i < p.1 <= s@.len(),
        forall|k: int|
            i64::MIN <= k <= i64::MAX && (#[trigger] ser_at(s@, i as int, JsonVal::Int(k)))
                && num_boundary(s@, i + ser_val(JsonVal::Int(k)).len()) ==> parsed_to(
                s@,
                i as int,
                JsonVal::Int(k),
                r,
            ),
{
    let n = s.len();
    if i >= n {
        proof {
            assert forall|k: int| !ser_at(s@, i as int, JsonVal::Int(k)) by {
                lemma_ser_first(JsonVal::Int(k));
            }
        }
        return None;
    }
    let neg = s[i] == '-';
    let start = if neg {
        i + 1
    } else {
        i
    };
    if start > n {
        return None;
    }
    let j = scan_digits(s, start);
    if j == start {
        proof {
            assert forall|k: int|
                !(ser_at(s@, i as int, JsonVal::Int(k)) && num_boundary(
                    s@,
                    i + ser_val(JsonVal::Int(k)).len(),
                )) by {
                if ser_at(s@, i as int, JsonVal::Int(k)) {
                    lemma_int_at_shape(s@, i as int, k);
                    if k >= 0 {
                        assert(s@.subrange(i as int, i + dec_of(k as nat).len())[0] == dec_of(
                            k as nat,
                        )[0]);
                        lemma_dec_of_digits(k as nat);
                        assert(is_dec_digit(s@[start as int]));
                    } else {
                        assert(s@.subrange(
                            i + 1,
                            i + 1 + dec_of((-k) as nat).len(),
                        )[0] == dec_of((-k) as nat)[0]);
                        lemma_dec_of_digits((-k) as nat);
                        assert(is_dec_digit(s@[start as int]));
                    }
                }
            }
        }
        return None;
    }
    let digits = chars_subrange(s, start, j);
    proof {
        assert forall|k: int|
            (#[trigger] ser_at(s@, i as int, JsonVal::Int(k))) && num_boundary(
                s@,
                i + ser_val(JsonVal::Int(k)).len(),
            ) implies ({
            let mag: nat = if k >= 0 {
                k as nat
            } else {
                (-k) as nat
            };
            &&& digits@ == dec_of(mag)
            &&& (k < 0 <==> neg)
            &&& j == i + ser_val(JsonVal::Int(k)).len()
        }) by {
            lemma_int_at_shape(s@, i as int, k);
            let mag: nat = if k >= 0 {
                k as nat
            } else {
                (-k) as nat
            };
            lemma_dec_of_digits(mag);
            if k >= 0 {
                assert(!neg);
                lemma_digits_pin(s@, start as int, j as int, mag);
            } else {
                assert(neg);
                lemma_digits_pin(s@, start as int, j as int, mag);
            }
        }
    }
    let parsed = parse_dec(&digits);
    match parsed {
        None => {
            proof {
                assert forall|k: int|
                    !(i64::MIN <= k <= i64::MAX && (#[trigger] ser_at(
                        s@,
                        i as int,
                        JsonVal::Int(k),
                    )) && num_boundary(s@, i + ser_val(JsonVal::Int(k)).len())) by {
                    if i64::MIN <= k <= i64::MAX && ser_at(s@, i as int, JsonVal::Int(k))
                        && num_boundary(s@, i + ser_val(JsonVal::Int(k)).len()) {
                        let mag: nat = if k >= 0 {
                            k as nat
                        } else {
                            (-k) as nat
                        };
                        assert(digits@ == dec_of(mag));
                        assert(mag <= 9223372036854775808);
                        let magu = mag as u64;
                        assert(digits@ == dec_of(magu as nat));
                        assert(false);
                    }
                }
            }
            None
        },
        Some(m) => {
            proof {
                assert forall|k: int|
                    (#[trigger] ser_at(s@, i as int, JsonVal::Int(k))) && num_boundary(
                        s@,
                        i + ser_val(JsonVal::Int(k)).len(),
                    ) implies ({
                    let mag: nat = if k >= 0 {
                        k as nat
                    } else {
                        (-k) as nat
                    };
                    mag == m && (k < 0 <==> neg) && j == i + ser_val(JsonVal::Int(k)).len()
                }) by {
                    let mag: nat = if k >= 0 {
                        k as nat
                    } else {
                        (-k) as nat
                    };
                    assert(digits@ == dec_of(mag));
                    assert(digits@ == dec_of(m as nat));
                    crate::numfmt::lemma_dec_of_injective(mag, m as nat);
                }
            }
            if neg {
                if m == 0 {
                    return None;
                }
                if m > 9223372036854775808u64 {
                    return None;
                }
                let v: i64 = if m == 9223372036854775808u64 {
                    i64::MIN
                } else {
                    -(m as i64)
                };
                proof {
                    assert(v as int == -(m as int));
                }
                Some((JsonValue::Int(v), j))
            } else {
                if m > i64::MAX as u64 {
                    return None;
                }
                Some((JsonValue::Int(m as i64), j))
            }
        },
    }
}

/// Shape of an integer rendering at a position: sign, digit block, length.
proof fn lemma_int_at_shape(s: Seq<char>, i: int, k: int)
    requires
        ser_at(s, i, JsonVal::Int(k)),
    ensures
        k >= 0 ==> {
            let mag = k as nat;
            &&& i + dec_of(mag).len() <= s.len()
            &&& s.subrange(i, i + dec_of(mag).len()) == dec_of(mag)
            &&& ser_val(JsonVal::Int(k)).len() == dec_of(mag).len()
            &&& s[i] != '-'
        },
        k < 0 ==> {
            let mag = (-k) as nat;
            &&& s[i] == '-'
            &&& i + 1 + dec_of(mag).len() <= s.len()
            &&& s.subrange(i + 1, i + 1 + dec_of(mag).len()) == dec_of(mag)
            &&& ser_val(JsonVal::Int(k)).len() == 1 + dec_of(mag).len()
        },
{
    lemma_dec_of_digits(if k >= 0 {
        k as nat
    } else {
        (-k) as nat
    });
    if k >= 0 {
        let mag = k as nat;
        assert(ser_val(JsonVal::Int(k)) == dec_of(mag));
        assert(s[i] == dec_of(mag)[0]) by {
            assert(s.subrange(i, i + dec_of(mag).len())[0] == dec_of(mag)[0]);
        }
        assert(is_dec_digit(s[i]));
        assert(!is_dec_digit('-'));
    } else {
        let mag = (-k) as nat;
        assert(ser_val(JsonVal::Int(k)) == seq!['-'] + dec_of(mag));
        lemma_split2(s, i, seq!['-'], dec_of(mag));
        assert(s.subrange(i, i + 1)[0] == s[i]);
    }
}

/// A digit block of `dec_of(mag)` at `start` pins a maximal digit scan that
/// was bounded on both sides.
proof fn lemma_digits_pin(s: Seq<char>, start: int, j: int, mag: nat)
    requires
        0 <= start <= j <= s.len(),
        start + dec_of(mag).len() <= s.len(),
        s.subrange(start, start + dec_of(mag).len()) == dec_of(mag),
        num_boundary(s, start + dec_of(mag).len()),
        forall|k: int| start <= k < j ==> is_dec_digit(s[k]),
        num_boundary(s, j),
    ensures
        j == start + dec_of(mag).len(),
        s.subrange(start, j) == dec_of(mag),
{
    lemma_dec_of_digits(mag);
    let end = start + dec_of(mag).len();
    if j < end {
        assert(is_dec_digit(s[j])) by {
            assert(s.subrange(start, end)[j - start] == s[j]);
            assert(all_dec_digits(dec_of(mag)));
        }
        assert(j < s.len());
        assert(false);
    }
    if j > end {
        assert(end < s.len());
        assert(is_dec_digit(s[end]));
        assert(false);
    }
}

/// Parse the remainder of a string literal (after the opening quote),
/// returning the unescaped content and the index past the closing quote.
#[verifier::loop_isolation(false)]
#[verifier::rlimit(100)]
fn parse_str_rest(s: &Vec<char>, i: usize) -> (r: Option<(Vec<char>, usize)>)
    requires
        i <= s@.len(),
    ensures
        r matches Some(p) ==> i < p.1 <= s@.len(),
        forall|content: Seq<char>| #[trigger] str_body_at(s@, i as int, content) ==> (r matches Some(
            p,
        ) && p.0@ == content && p.1 == i + esc_str(content).len() + 1),
    decreases s@.len() - i,
{
    let n = s.len();
    if i >= n {
        return None;
    }
    let c = s[i];
    if c == '"' {
        proof {
            assert forall|content: Seq<char>| str_body_at(s@, i as int, content) implies content
                =~= Seq::<char>::empty() by {
                if content.len() > 0 {
                    lemma_esc_char_first(content[0]);
                    assert(s@.subrange(i as int, i + esc_str(content).len())[0] == esc_char(
                        content[0],
                    )[0]);
                }
            }
        }
        let out: Vec<char> = Vec::new();
        return Some((out, i + 1));
    }
    // The first character of the body, and how many input characters it took.
    let parsed_head: Option<(char, usize)> = if c == '\\' {
        if i + 1 >= n {
            None
        } else {
            let e = s[i + 1];
            if e == '"' {
                Some(('"', 2))
            } else if e == '\\' {
                Some(('\\', 2))
            } else if e == 'u' {
                if n - i < 6 {
                    None
                } else if !(s[i + 2] == '0' && s[i + 3] == '0') {
                    None
                } else {
                    let h1 = parse_hex_char(s[i + 4]);
                    let h2 = parse_hex_char(s[i + 5]);
                    match (h1, h2) {
                        (Some(a), Some(b)) => {
                            let v: u8 = a * 16 + b;
                            if v < 32 {
                                let ch = v as char;
                                Some((ch, 6))
                            } else {
                                None
                            }
                        },
                        _ => None,
                    }
                }
            } else {
                None
            }
        }
    } else if (c as u32) < 32 {
        None
    } else {
        Some((c, 1))
    };
    proof {
        assert forall|content: Seq<char>| str_body_at(s@, i as int, content) implies (parsed_head
            matches Some(h) && h.0 == content[0] && h.1 == esc_char(content[0]).len()
            && content.len() > 0) by {
            lemma_head_decomp(s@, i as int, content);
            let c0 = content[0];
            let e0 = esc_char(c0);
            assert forall|k: int| 0 <= k < e0.len() implies s@[i + k] == e0[k] by {
                assert(s@.subrange(i as int, i + e0.len())[k] == e0[k]);
            }
            lemma_esc_char_first(c0);
            if c0 == '"' {
                assert(s@[i + 0] == '\\' && s@[i + 1] == '"');
            } else if c0 == '\\' {
                assert(s@[i + 0] == '\\' && s@[i + 1] == '\\');
            } else if (c0 as u32) < 32 {
                assert(e0.len() == 6);
                assert(s@[i + 0] == '\\');
                assert(s@[i + 1] == 'u');
                assert(s@[i + 2] == '0');
                assert(s@[i + 3] == '0');
                assert(s@[i + 4] == hex_digit(((c0 as u32) / 16) as int));
                assert(s@[i + 5] == hex_digit(((c0 as u32) % 16) as int));
                crate::numfmt::lemma_hex_digit_val(((c0 as u32) / 16) as int);
                crate::numfmt::lemma_hex_digit_val(((c0 as u32) % 16) as int);
                assert(i + 6 < n);
                assert(parsed_head matches Some(h) && (h.0 as u32) == (c0 as u32) && h.1 == 6);
                vstd::utf8::char_u32_cast(c0, c0 as u32);
            } else {
                assert(e0 == seq![c0]);
                assert(s@[i + 0] == c0);
            }
        }
    }
    match parsed_head {
        None => {
            None
        },
        Some((ch, used)) => {
            if used > n - i {
                return None;
            }
            let rest = parse_str_rest(s, i + used);
            match rest {
                None => {
                    proof {
                        assert forall|content: Seq<char>| !str_body_at(s@, i as int, content) by {
                            if str_body_at(s@, i as int, content) {
                                lemma_head_decomp(s@, i as int, content);
                                assert(str_body_at(s@, i + used, content.drop_first()));
                            }
                        }
                    }
                    None
                },
                Some((tail, j)) => {
                    let mut out: Vec<char> = Vec::new();
                    out.push(ch);
                    let mut tail2 = tail;
                    out.append(&mut tail2);
                    proof {
                        assert forall|content: Seq<char>| str_body_at(s@, i as int, content)
                            implies (out@ == content && j == i + esc_str(content).len() + 1) by {
                            lemma_head_decomp(s@, i as int, content);
                            assert(str_body_at(s@, i + used, content.drop_first()));
                            assert(out@ =~= content);
                        }
                    }
                    Some((out, j))
                },
            }
        },
    }
}

/// The first character of a literal body never reads as a closing quote.
proof fn lemma_esc_char_first(c: char)
    ensures
        esc_char(c)[0] != '"',
        esc_char(c).len() >= 1,
        esc_char(c)[0] == '\\' || esc_char(c)[0] == c,
        esc_char(c)[0] == '\\' || (c as u32) >= 32,
{
}

/// A non-empty body at `i` decomposes into its first escape and the rest.
proof fn lemma_head_decomp(s: Seq<char>, i: int, content: Seq<char>)
    requires
        str_body_at(s, i, content),
        s[i] != '"',
    ensures
        content.len() > 0,
        s.subrange(i, i + esc_char(content[0]).len()) == esc_char(content[0]),
        str_body_at(s, i + esc_char(content[0]).len(), content.drop_first()),
        esc_str(content).len() == esc_char(content[0]).len() + esc_str(content.drop_first()).len(),
    decreases content.len(),
{
    if content.len() == 0 {
        assert(s[i] == '"');
        assert(false);
    }
    let e0 = esc_char(content[0]);
    let erest = esc_str(content.drop_first());
    assert(esc_str(content) == e0 + erest);
    lemma_split2(s, i, e0, erest);
    let i2 = i + e0.len();
    assert(s.subrange(i2, i2 + erest.len()) == erest);
    assert(s[i2 + erest.len()] == '"');
}


/// All items of a model list are representable.
pub open spec fn rep_items(ws: Seq<JsonVal>) -> bool {
    forall|t: int| 0 <= t < ws.len() ==> representable(#[trigger] ws[t])
}

/// All field values of a model object are representable.
pub open spec fn rep_fields(ws: Seq<(Seq<char>, JsonVal)>) -> bool {
    forall|t: int| 0 <= t < ws.len() ==> representable((#[trigger] ws[t]).1)
}

/// The first character of a rendering pins the form of the value.
proof fn lemma_first_char_form(s: Seq<char>, i: int, w: JsonVal)
    requires
        ser_at(s, i, w),
    ensures
        i < s.len(),
        s[i] == ser_val(w)[0],
        s[i] == 'n' ==> w is Null,
        s[i] == 't' ==> w == JsonVal::Bool(true),
        s[i] == 'f' ==> w == JsonVal::Bool(false),
        s[i] == '"' ==> w is Str,
        s[i] == '[' ==> w is Arr,
        s[i] == '{' ==> w is Obj,
        s[i] == '-' || is_dec_digit(s[i]) ==> w is Int,
{
    lemma_ser_first(w);
    assert(s.subrange(i, i + ser_val(w).len())[0] == ser_val(w)[0]);
}

/// Decomposition of a rendered item list into head and tail.
proof fn lemma_items_decomp(s: Seq<char>, i: int, ws: Seq<JsonVal>)
    requires
        items_at(s, i, ws),
    ensures
        ser_at(s, i, ws[0]),
        num_boundary(s, i + ser_val(ws[0]).len()),
        i + ser_val(ws[0]).len() < s.len(),
        ws.len() == 1 ==> s[i + ser_val(ws[0]).len()] == ']' && ser_items(ws).len() == ser_val(
            ws[0],
        ).len(),
        ws.len() > 1 ==> s[i + ser_val(ws[0]).len()] == ',' && items_at(
            s,
            i + ser_val(ws[0]).len() + 1,
            ws.drop_first(),
        ) && ser_items(ws).len() == ser_val(ws[0]).len() + 1 + ser_items(ws.drop_first()).len(),
{
    let l0 = ser_val(ws[0]).len() as int;
    if ws.len() == 1 {
        assert(ser_items(ws) == ser_val(ws[0]));
        assert forall|k: int| 0 <= k < l0 implies s.subrange(i, i + l0)[k] == ser_val(ws[0])[k] by {}
        assert(s.subrange(i, i + l0) =~= ser_val(ws[0]));
        assert(s[i + l0] == ']');
    } else {
        let rest = ser_items(ws.drop_first());
        assert(ser_items(ws) == ser_val(ws[0]) + (seq![','] + rest)) by {
            assert(ser_items(ws) == ser_val(ws[0]) + seq![','] + rest);
            assert(ser_val(ws[0]) + seq![','] + rest =~= ser_val(ws[0]) + (seq![','] + rest));
        }
        lemma_split2(s, i, ser_val(ws[0]), seq![','] + rest);
        lemma_split2(s, i + l0, seq![','], rest);
        assert(s.subrange(i + l0, i + l0 + 1)[0] == ',');
        assert(s[i + l0] == ',');
    }
}

/// Decomposition of a rendered field list into head and tail.
proof fn lemma_fields_decomp(s: Seq<char>, i: int, ws: Seq<(Seq<char>, JsonVal)>)
    requires
        fields_at(s, i, ws),
    ensures
        i < s.len(),
        s[i] == '"',
        str_body_at(s, i + 1, ws[0].0),
        s[i + ser_string(ws[0].0).len()] == ':',
        ser_at(s, i + ser_string(ws[0].0).len() + 1, ws[0].1),
        num_boundary(s, i + ser_string(ws[0].0).len() + 1 + ser_val(ws[0].1).len()),
        i + ser_string(ws[0].0).len() + 1 + ser_val(ws[0].1).len() < s.len(),
        ws.len() == 1 ==> s[i + ser_string(ws[0].0).len() + 1 + ser_val(ws[0].1).len()] == '}'
            && ser_fields(ws).len() == ser_string(ws[0].0).len() + 1 + ser_val(ws[0].1).len(),
        ws.len() > 1 ==> s[i + ser_string(ws[0].0).len() + 1 + ser_val(ws[0].1).len()] == ','
            && fields_at(s, i + ser_string(ws[0].0).len() + 1 + ser_val(ws[0].1).len() + 1,
            ws.drop_first()) && ser_fields(ws).len() == ser_string(ws[0].0).len() + 1 + ser_val(
            ws[0].1,
        ).len() + 1 + ser_fields(ws.drop_first()).len(),
{
    let k0 = ws[0].0;
    let v0 = ws[0].1;
    let lk = ser_string(k0).len() as int;
    let lv = ser_val(v0).len() as int;
    let head = ser_string(k0) + seq![':'] + ser_val(v0);
    if ws.len() == 1 {
        assert(ser_fields(ws) == head);
    } else {
        assert(ser_fields(ws) == head + seq![','] + ser_fields(ws.drop_first()));
    }
    // head splits
    assert(head =~= ser_string(k0) + (seq![':'] + ser_val(v0)));
    if ws.len() == 1 {
        assert(s.subrange(i, i + head.len()) == head);
    } else {
        let rest = ser_fields(ws.drop_first());
        assert(ser_fields(ws) =~= head + (seq![','] + rest));
        lemma_split2(s, i, head, seq![','] + rest);
        lemma_split2(s, i + head.len(), seq![','], rest);
        assert(s.subrange(i + head.len(), i + head.len() + 1)[0] == ',');
    }
    lemma_split2(s, i, ser_string(k0), seq![':'] + ser_val(v0));
    lemma_split2(s, i + lk, seq![':'], ser_val(v0));
    assert(s.subrange(i + lk, i + lk + 1)[0] == ':');
    // the key literal: '"' + esc + '"'
    assert(ser_string(k0) =~= seq!['"'] + (esc_str(k0) + seq!['"']));
    lemma_split2(s, i, seq!['"'], esc_str(k0) + seq!['"']);
    assert(s.subrange(i, i + 1)[0] == '"');
    lemma_split2(s, i + 1, esc_str(k0), seq!['"']);
    assert(s.subrange(i + 1 + esc_str(k0).len(), i + 1 + esc_str(k0).len() + 1)[0] == '"');
}

/// Parse one canonical value beginning at `i`.
#[verifier::loop_isolation(false)]
#[verifier::rlimit(100)]
fn parse_value(s: &Vec<char>, i: usize) -> (r: Option<(JsonValue, usize)>)
    requires
        i <= s@.len(),
    ensures
        r matches Some(p) ==> i < p.1 <= s@.len(),
        forall|w: JsonVal|
            representable(w) && (#[trigger] ser_at(s@, i as int, w)) && num_boundary(
                s@,
                i + ser_val(w).len(),
            ) ==> parsed_to(s@, i as int, w, r),
    decreases s@.len() - i, 0int,
{
    let n = s.len();
    if i >= n {
        proof {
            assert forall|w: JsonVal| !ser_at(s@, i as int, w) by {
                lemma_ser_first(w);
            }
        }
        return None;
    }
    let c = s[i];
    proof {
        assert forall|w: JsonVal| ser_at(s@, i as int, w) implies s@[i as int] == ser_val(w)[0] by {
            lemma_first_char_form(s@, i as int, w);
        }
    }
    if c == 'n' {
        if n - i >= 4 && s[i + 1] == 'u' && s[i + 2] == 'l' && s[i + 3] == 'l' {
            proof {
                assert forall|w: JsonVal| ser_at(s@, i as int, w) implies w is Null by {
                    lemma_first_char_form(s@, i as int, w);
                }
            }
            return Some((JsonValue::Null, i + 4));
        } else {
            proof {
                assert forall|w: JsonVal| !ser_at(s@, i as int, w) by {
                    if ser_at(s@, i as int, w) {
                        lemma_first_char_form(s@, i as int, w);
                        assert(w is Null);
                        assert(ser_val(w).len() == 4);
                        assert forall|k: int| 0 <= k < 4 implies s@[i + k] == ser_val(w)[k] by {
                            assert(s@.subrange(i as int, i + 4)[k] == ser_val(w)[k]);
                        }
                    }
                }
            }
            return None;
        }
    }
    if c == 't' {
        if n - i >= 4 && s[i + 1] == 'r' && s[i + 2] == 'u' && s[i + 3] == 'e' {
            proof {
                assert forall|w: JsonVal| ser_at(s@, i as int, w) implies w == JsonVal::Bool(
                    true,
                ) by {
                    lemma_first_char_form(s@, i as int, w);
                }
            }
            return Some((JsonValue::Bool(true), i + 4));
        } else {
            proof {
                assert forall|w: JsonVal| !ser_at(s@, i as int, w) by {
                    if ser_at(s@, i as int, w) {
                        lemma_first_char_form(s@, i as int, w);
                        assert(ser_val(w).len() == 4);
                        assert forall|k: int| 0 <= k < 4 implies s@[i + k] == ser_val(w)[k] by {
                            assert(s@.subrange(i as int, i + 4)[k] == ser_val(w)[k]);
                        }
                    }
                }
            }
            return None;
        }
    }
    if c == 'f' {
        if n - i >= 5 && s[i + 1] == 'a' && s[i + 2] == 'l' && s[i + 3] == 's' && s[i + 4] == 'e' {
            proof {
                assert forall|w: JsonVal| ser_at(s@, i as int, w) implies w == JsonVal::Bool(
                    false,
                ) by {
                    lemma_first_char_form(s@, i as int, w);
                }
            }
            return Some((JsonValue::Bool(false), i + 5));
        } else {
            proof {
                assert forall|w: JsonVal| !ser_at(s@, i as int, w) by {
                    if ser_at(s@, i as int, w) {
                        lemma_first_char_form(s@, i as int, w);
                        assert(ser_val(w).len() == 5);
                        assert forall|k: int| 0 <= k < 5 implies s@[i + k] == ser_val(w)[k] by {
                            assert(s@.subrange(i as int, i + 5)[k] == ser_val(w)[k]);
                        }
                    }
                }
            }
            return None;
        }
    }
    if c == '"' {
        proof {
            assert forall|w: JsonVal| ser_at(s@, i as int, w) implies (w is Str && str_body_at(
                s@,
                i + 1,
                w->Str_0,
            )) by {
                lemma_first_char_form(s@, i as int, w);
                let cs0 = w->Str_0;
                assert(ser_val(w) =~= seq!['"'] + (esc_str(cs0) + seq!['"']));
                lemma_split2(s@, i as int, seq!['"'], esc_str(cs0) + seq!['"']);
                lemma_split2(s@, i + 1, esc_str(cs0), seq!['"']);
                assert(s@.subrange(
                    i + 1 + esc_str(cs0).len(),
                    i + 1 + esc_str(cs0).len() + 1,
                )[0] == '"');
            }
        }
        let rest = parse_str_rest(s, i + 1);
        match rest {
            None => {
                return None;
            },
            Some((cs, j)) => {
                let st = chars_to_string(&cs);
                return Some((JsonValue::Str(st), j));
            },
        }
    }
    if c == '[' {
        if i + 1 < n && s[i + 1] == ']' {
            proof {
                assert forall|w: JsonVal| ser_at(s@, i as int, w) implies (w is Arr && w->Arr_0
                    =~= Seq::<JsonVal>::empty()) by {
                    lemma_first_char_form(s@, i as int, w);
                    let ws = w->Arr_0;
                    if ws.len() > 0 {
                        assert(ser_val(w) =~= seq!['['] + (ser_items(ws) + seq![']']));
                        lemma_split2(s@, i as int, seq!['['], ser_items(ws) + seq![']']);
                        lemma_split2(s@, i + 1, ser_items(ws), seq![']']);
                        lemma_ser_first(ws[0]);
                        assert(ser_items(ws)[0] == ser_val(ws[0])[0]) by {
                            if ws.len() > 1 {
                                assert(ser_items(ws) == ser_val(ws[0]) + seq![','] + ser_items(
                                    ws.drop_first(),
                                ));
                                assert(ser_items(ws)[0] == (ser_val(ws[0]) + seq![','])[0]);
                            }
                        }
                        assert(s@[i + 1] == ser_items(ws)[0]) by {
                            assert(s@.subrange(i + 1, i + 1 + ser_items(ws).len())[0]
                                == ser_items(ws)[0]);
                        }
                        assert(false);
                    }
                }
                assert(jview_items(Seq::<JsonValue>::empty()) =~= Seq::<JsonVal>::empty());
            }
            let out: Vec<JsonValue> = Vec::new();
            return Some((JsonValue::Arr(out), i + 2));
        }
        proof {
            assert forall|w: JsonVal|
                representable(w) && ser_at(s@, i as int, w) && num_boundary(
                    s@,
                    i + ser_val(w).len(),
                ) implies (w is Arr && w->Arr_0.len() >= 1 && items_at(s@, i + 1, w->Arr_0)
                && rep_items(w->Arr_0)) by {
                lemma_first_char_form(s@, i as int, w);
                let ws = w->Arr_0;
                assert(ser_val(w) =~= seq!['['] + (ser_items(ws) + seq![']']));
                lemma_split2(s@, i as int, seq!['['], ser_items(ws) + seq![']']);
                lemma_split2(s@, i + 1, ser_items(ws), seq![']']);
                assert(s@.subrange(
                    i + 1 + ser_items(ws).len(),
                    i + 1 + ser_items(ws).len() + 1,
                )[0] == ']');
                if ws.len() == 0 {
                    assert(s@[i + 1] == ']') by {
                        assert(ser_items(ws).len() == 0);
                    }
                    assert(i + 1 < n);
                    assert(false);
                }
            }
        }
        let rest = parse_items_rest(s, i + 1);
        match rest {
            None => {
                return None;
            },
            Some((vs, j)) => {
                return Some((JsonValue::Arr(vs), j));
            },
        }
    }
    if c == '{' {
        if i + 1 < n && s[i + 1] == '}' {
            proof {
                assert forall|w: JsonVal| ser_at(s@, i as int, w) implies (w is Obj && w->Obj_0
                    =~= Seq::<(Seq<char>, JsonVal)>::empty()) by {
                    lemma_first_char_form(s@, i as int, w);
                    let ws = w->Obj_0;
                    if ws.len() > 0 {
                        assert(ser_val(w) =~= seq!['{'] + (ser_fields(ws) + seq!['}']));
                        lemma_split2(s@, i as int, seq!['{'], ser_fields(ws) + seq!['}']);
                        lemma_split2(s@, i + 1, ser_fields(ws), seq!['}']);
                        assert(ser_fields(ws)[0] == '"') by {
                            let head = ser_string(ws[0].0) + seq![':'] + ser_val(ws[0].1);
                            assert(head[0] == (ser_string(ws[0].0) + seq![':'])[0]);
                            assert(ser_string(ws[0].0)[0] == (seq!['"'] + esc_str(ws[0].0))[0]);
                            assert(head[0] == '"');
                            if ws.len() > 1 {
                                assert(ser_fields(ws) == head + seq![','] + ser_fields(
                                    ws.drop_first(),
                                ));
                                assert(ser_fields(ws)[0] == (head + seq![','])[0]);
                            }
                        }
                        assert(s@[i + 1] == '"') by {
                            assert(s@.subrange(i + 1, i + 1 + ser_fields(ws).len())[0]
                                == ser_fields(ws)[0]);
                        }
                        assert(false);
                    }
                }
                assert(jview_fields(Seq::<(String, JsonValue)>::empty()) =~= Seq::<(
                    Seq<char>,
                    JsonVal,
                )>::empty());
            }
            let out: Vec<(String, JsonValue)> = Vec::new();
            return Some((JsonValue::Obj(out), i + 2));
        }
        proof {
            assert forall|w: JsonVal|
                representable(w) && ser_at(s@, i as int, w) && num_boundary(
                    s@,
                    i + ser_val(w).len(),
                ) implies (w is Obj && w->Obj_0.len() >= 1 && fields_at(s@, i + 1, w->Obj_0)
                && rep_fields(w->Obj_0)) by {
                lemma_first_char_form(s@, i as int, w);
                let ws = w->Obj_0;
                assert(ser_val(w) =~= seq!['{'] + (ser_fields(ws) + seq!['}']));
                lemma_split2(s@, i as int, seq!['{'], ser_fields(ws) + seq!['}']);
                lemma_split2(s@, i + 1, ser_fields(ws), seq!['}']);
                assert(s@.subrange(
                    i + 1 + ser_fields(ws).len(),
                    i + 1 + ser_fields(ws).len() + 1,
                )[0] == '}');
                if ws.len() == 0 {
                    assert(s@[i + 1] == '}') by {
                        assert(ser_fields(ws).len() == 0);
                    }
                    assert(i + 1 < n);
                    assert(false);
                }
            }
        }
        let rest = parse_fields_rest(s, i + 1);
        match rest {
            None => {
                return None;
            },
            Some((fs, j)) => {
                return Some((JsonValue::Obj(fs), j));
            },
        }
    }
    if c == '-' || ('0' <= c && c <= '9') {
        proof {
            assert forall|w: JsonVal| ser_at(s@, i as int, w) implies w is Int by {
                lemma_first_char_form(s@, i as int, w);
            }
        }
        let r = parse_number(s, i);
        return r;
    }
    proof {
        assert forall|w: JsonVal| !ser_at(s@, i as int, w) by {
            if ser_at(s@, i as int, w) {
                lemma_first_char_form(s@, i as int, w);
                lemma_ser_first(w);
            }
        }
    }
    None
}

/// Parse `value (',' value)* ']'` beginning at `i`.
#[verifier::loop_isolation(false)]
#[verifier::rlimit(100)]
fn parse_items_rest(s: &Vec<char>, i: usize) -> (r: Option<(Vec<JsonValue>, usize)>)
    requires
        i <= s@.len(),
    ensures
        r matches Some(p) ==> i < p.1 <= s@.len(),
        forall|ws: Seq<JsonVal>|
            rep_items(ws) && (#[trigger] items_at(s@, i as int, ws)) ==> (r matches Some(p)
                && jview_items(p.0@) == ws && p.1 == i + ser_items(ws).len() + 1),
    decreases s@.len() - i, 1int,
{
    let n = s.len();
    proof {
        assert forall|ws: Seq<JsonVal>| rep_items(ws) && items_at(s@, i as int, ws) implies (
        ser_at(s@, i as int, ws[0]) && num_boundary(s@, i + ser_val(ws[0]).len())
            && representable(ws[0])) by {
            lemma_items_decomp(s@, i as int, ws);
        }
    }
    let r0 = parse_value(s, i);
    match r0 {
        None => {
            return None;
        },
        Some((v, j)) => {
            if j < n && s[j] == ']' {
                proof {
                    assert forall|ws: Seq<JsonVal>|
                        rep_items(ws) && items_at(s@, i as int, ws) implies (ws.len() == 1 && ws[0]
                        == jview(v) && j == i + ser_items(ws).len()) by {
                        lemma_items_decomp(s@, i as int, ws);
                    }
                }
                let mut out: Vec<JsonValue> = Vec::new();
                out.push(v);
                proof {
                    assert forall|ws: Seq<JsonVal>|
                        rep_items(ws) && items_at(s@, i as int, ws) implies jview_items(out@)
                        =~= ws by {
                        assert(out@.drop_first() =~= Seq::<JsonValue>::empty());
                        assert(out@[0] == v);
                        assert(jview_items(out@) == seq![jview(out@[0])] + jview_items(
                            out@.drop_first(),
                        ));
                        assert(jview_items(Seq::<JsonValue>::empty())
                            == Seq::<JsonVal>::empty());
                    }
                }
                return Some((out, j + 1));
            }
            if j < n && s[j] == ',' {
                proof {
                    assert forall|ws: Seq<JsonVal>|
                        rep_items(ws) && items_at(s@, i as int, ws) implies (ws.len() > 1
                        && items_at(s@, j as int + 1, ws.drop_first()) && rep_items(
                            ws.drop_first(),
                        ) && ws[0] == jview(v)) by {
                        lemma_items_decomp(s@, i as int, ws);
                        assert forall|t: int|
                            0 <= t < ws.drop_first().len() implies representable(
                            #[trigger] ws.drop_first()[t],
                        ) by {
                            assert(ws.drop_first()[t] == ws[t + 1]);
                        }
                    }
                }
                let rest = parse_items_rest(s, j + 1);
                match rest {
                    None => {
                        return None;
                    },
                    Some((vs2, j2)) => {
                        let mut out: Vec<JsonValue> = Vec::new();
                        out.push(v);
                        let mut vs2m = vs2;
                        let ghost tail_view = vs2m@;
                        out.append(&mut vs2m);
                        proof {
                            assert forall|ws: Seq<JsonVal>|
                                rep_items(ws) && items_at(s@, i as int, ws) implies (jview_items(
                                out@,
                            ) =~= ws && j2 == i + ser_items(ws).len() + 1) by {
                                lemma_items_decomp(s@, i as int, ws);
                                assert forall|t: int|
                                    0 <= t < ws.drop_first().len() implies representable(
                                    #[trigger] ws.drop_first()[t],
                                ) by {
                                    assert(ws.drop_first()[t] == ws[t + 1]);
                                }
                                assert(ws[0] == jview(v) && j == i + ser_val(ws[0]).len());
                                assert(items_at(s@, j + 1, ws.drop_first()));
                                assert(items_at(s@, (j + 1) as int, ws.drop_first()));
                                assert(jview_items(tail_view) == ws.drop_first() && j2 == j + 1
                                    + ser_items(ws.drop_first()).len() + 1);
                                lemma_jview_items_index(out@);
                                lemma_jview_items_index(tail_view);
                                assert(tail_view.len() == ws.drop_first().len());
                                assert(out@.len() == ws.len());
                                assert forall|t: int|
                                    0 <= t < jview_items(out@).len() implies jview_items(out@)[t]
                                    == ws[t] by {
                                    lemma_jview_items_index(out@);
                                    if t == 0 {
                                        assert(out@[0] == v);
                                    } else {
                                        assert(out@[t] == tail_view[t - 1]);
                                        lemma_jview_items_index(tail_view);
                                        assert(jview_items(tail_view)[t - 1] == ws.drop_first()[t
                                            - 1]);
                                    }
                                }
                            }
                        }
                        return Some((out, j2));
                    },
                }
            }
            proof {
                assert forall|ws: Seq<JsonVal>| !(rep_items(ws) && items_at(s@, i as int, ws)) by {
                    if rep_items(ws) && items_at(s@, i as int, ws) {
                        lemma_items_decomp(s@, i as int, ws);
                    }
                }
            }
            None
        },
    }
}

/// Parse `"key":value (',' "key":value)* '}'` beginning at `i`.
#[verifier::loop_isolation(false)]
#[verifier::rlimit(100)]
fn parse_fields_rest(s: &Vec<char>, i: usize) -> (r: Option<(Vec<(String, JsonValue)>, usize)>)
    requires
        i <= s@.len(),
    ensures
        r matches Some(p) ==> i < p.1 <= s@.len(),
        forall|ws: Seq<(Seq<char>, JsonVal)>|
            rep_fields(ws) && (#[trigger] fields_at(s@, i as int, ws)) ==> (r matches Some(p)
                && jview_fields(p.0@) == ws && p.1 == i + ser_fields(ws).len() + 1),
    decreases s@.len() - i, 1int,
{
    let n = s.len();
    proof {
        assert forall|ws: Seq<(Seq<char>, JsonVal)>|
            rep_fields(ws) && fields_at(s@, i as int, ws) implies (i < n && s@[i as int] == '"'
            && str_body_at(s@, i as int + 1, ws[0].0)) by {
            lemma_fields_decomp(s@, i as int, ws);
        }
    }
    if i >= n {
        return None;
    }
    if !(s[i] == '"') {
        return None;
    }
    let key_parse = parse_str_rest(s, i + 1);
    match key_parse {
        None => {
            return None;
        },
        Some((kcs, j1)) => {
            proof {
                assert forall|ws: Seq<(Seq<char>, JsonVal)>|
                    rep_fields(ws) && fields_at(s@, i as int, ws) implies (kcs@ == ws[0].0 && j1
                    == i + ser_string(ws[0].0).len() && j1 < n && s@[j1 as int] == ':' && ser_at(
                    s@,
                    j1 as int + 1,
                    ws[0].1,
                ) && num_boundary(s@, j1 as int + 1 + ser_val(ws[0].1).len()) && representable(
                    ws[0].1,
                )) by {
                    lemma_fields_decomp(s@, i as int, ws);
                }
            }
            if j1 >= n || !(s[j1] == ':') {
                return None;
            }
            let r0 = parse_value(s, j1 + 1);
            match r0 {
                None => {
                    return None;
                },
                Some((v, j2)) => {
                    let key = chars_to_string(&kcs);
                    if j2 < n && s[j2] == '}' {
                        proof {
                            assert forall|ws: Seq<(Seq<char>, JsonVal)>|
                                rep_fields(ws) && fields_at(s@, i as int, ws) implies (ws.len()
                                == 1 && ws[0].1 == jview(v) && j2 == i + ser_fields(ws).len()) by {
                                lemma_fields_decomp(s@, i as int, ws);
                            }
                        }
                        let mut out: Vec<(String, JsonValue)> = Vec::new();
                        out.push((key, v));
                        proof {
                            assert forall|ws: Seq<(Seq<char>, JsonVal)>|
                                rep_fields(ws) && fields_at(s@, i as int, ws) implies jview_fields(
                                out@,
                            ) =~= ws by {
                                assert(out@.drop_first() =~= Seq::<(String, JsonValue)>::empty());
                                assert(out@[0].0@ == kcs@);
                                assert(jview_fields(out@) == seq![(out@[0].0@, jview(out@[0].1))]
                                    + jview_fields(out@.drop_first()));
                                assert(jview_fields(Seq::<(String, JsonValue)>::empty()) == Seq::<
                                    (Seq<char>, JsonVal),
                                >::empty());
                            }
                        }
                        return Some((out, j2 + 1));
                    }
                    if j2 < n && s[j2] == ',' {
                        proof {
                            assert forall|ws: Seq<(Seq<char>, JsonVal)>|
                                rep_fields(ws) && fields_at(s@, i as int, ws) implies (ws.len() > 1
                                && fields_at(s@, j2 as int + 1, ws.drop_first()) && rep_fields(
                                ws.drop_first(),
                            ) && ws[0].1 == jview(v)) by {
                                lemma_fields_decomp(s@, i as int, ws);
                                assert forall|t: int|
                                    0 <= t < ws.drop_first().len() implies representable(
                                    (#[trigger] ws.drop_first()[t]).1,
                                ) by {
                                    assert(ws.drop_first()[t] == ws[t + 1]);
                                }
                            }
                        }
                        let rest = parse_fields_rest(s, j2 + 1);
                        match rest {
                            None => {
                                return None;
                            },
                            Some((fs2, j3)) => {
                                let mut out: Vec<(String, JsonValue)> = Vec::new();
                                out.push((key, v));
                                let mut fs2m = fs2;
                                let ghost tail_view = fs2m@;
                                out.append(&mut fs2m);
                                proof {
                                    assert forall|ws: Seq<(Seq<char>, JsonVal)>|
                                        rep_fields(ws) && fields_at(s@, i as int, ws) implies (
                                    jview_fields(out@) =~= ws && j3 == i + ser_fields(ws).len()
                                        + 1) by {
                                        lemma_fields_decomp(s@, i as int, ws);
                                        assert forall|t: int|
                                            0 <= t < ws.drop_first().len() implies representable(
                                            (#[trigger] ws.drop_first()[t]).1,
                                        ) by {
                                            assert(ws.drop_first()[t] == ws[t + 1]);
                                        }
                                        assert(kcs@ == ws[0].0 && j1 == i + ser_string(
                                            ws[0].0,
                                        ).len());
                                        assert(ws[0].1 == jview(v) && j2 == j1 + 1 + ser_val(
                                            ws[0].1,
                                        ).len());
                                        assert(fields_at(s@, (j2 + 1) as int, ws.drop_first()));
                                        assert(jview_fields(tail_view) == ws.drop_first() && j3
                                            == j2 + 1 + ser_fields(ws.drop_first()).len() + 1);
                                        lemma_jview_fields_index(out@);
                                        lemma_jview_fields_index(tail_view);
                                        assert(tail_view.len() == ws.drop_first().len());
                                        assert(out@.len() == ws.len());
                                        assert forall|t: int|
                                            0 <= t < jview_fields(out@).len() implies jview_fields(
                                            out@,
                                        )[t] == ws[t] by {
                                            lemma_jview_fields_index(out@);
                                            if t == 0 {
                                                assert(out@[0].0 == key && out@[0].1 == v);
                                            } else {
                                                assert(out@[t] == tail_view[t - 1]);
                                                lemma_jview_fields_index(tail_view);
                                                assert(jview_fields(tail_view)[t - 1]
                                                    == ws.drop_first()[t - 1]);
                                            }
                                        }
                                    }
                                }
                                return Some((out, j3));
                            },
                        }
                    }
                    proof {
                        assert forall|ws: Seq<(Seq<char>, JsonVal)>|
                            !(rep_fields(ws) && fields_at(s@, i as int, ws)) by {
                            if rep_fields(ws) && fields_at(s@, i as int, ws) {
                                lemma_fields_decomp(s@, i as int, ws);
                            }
                        }
                    }
                    None
                },
            }
        },
    }
}

/// Parse a whole character sequence as one canonical JSON value.
pub fn parse_json_chars(s: &Vec<char>) -> (r: Option<JsonValue>)
    ensures
        forall|w: JsonVal|
            representable(w) && s@ == ser_val(w) ==> (r matches Some(v) && jview(v) == w),
{
    proof {
        assert forall|w: JsonVal| representable(w) && s@ == ser_val(w) implies (ser_at(s@, 0, w)
            && num_boundary(s@, ser_val(w).len() as int)) by {
            assert(s@.subrange(0, ser_val(w).len() as int) =~= ser_val(w));
        }
    }
    let r0 = parse_value(s, 0);
    match r0 {
        Some((v, j)) => {
            if j == s.len() {
                Some(v)
            } else {
                None
            }
        },
        None => None,
    }
}

/// Parse UTF-8 bytes as one canonical JSON value.
pub fn parse_json_bytes(b: &Vec<u8>) -> (r: Option<JsonValue>)
    ensures
        forall|w: JsonVal|
            representable(w) && b@ == vstd::utf8::encode_utf8(ser_val(w)) ==> (r matches Some(v)
                && jview(v) == w),
{
    proof {
        assert forall|w: JsonVal|
            representable(w) && b@ == vstd::utf8::encode_utf8(ser_val(w)) implies
            vstd::utf8::valid_utf8(b@) by {
            vstd::utf8::encode_utf8_valid_utf8(ser_val(w));
        }
    }
    let st = bytes_to_string(b);
    match st {
        None => None,
        Some(text) => {
            proof {
                assert forall|w: JsonVal|
                    representable(w) && b@ == vstd::utf8::encode_utf8(ser_val(w)) implies text@
                    == ser_val(w) by {
                    vstd::utf8::encode_utf8_decode_utf8(text@);
                    vstd::utf8::encode_utf8_decode_utf8(ser_val(w));
                }
            }
            let cs = str_to_chars(text.as_str());
            parse_json_chars(&cs)
        },
    }
}

} // verus!
