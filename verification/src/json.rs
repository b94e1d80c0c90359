//! Structured payload values and their canonical JSON text.
//!
//! Command payloads, router responses and token envelopes all travel as JSON.
//! A runtime value (`JsonValue`) is modelled by the mathematical `JsonVal`;
//! the crate renders values into a canonical compact form (`ser_val`) and
//! parses that form back, and the parser is proved to accept every rendering
//! and return the original model.

use vstd::prelude::*;
use crate::numfmt::{dec_of, hex_digit, push_dec};
use crate::strutil::{str_to_chars, chars_to_string};

verus! {

/// A JSON-like structured value: object fields keep their order.
#[derive(Debug)]
pub enum JsonValue {
    Null,
    Bool(bool),
    Int(i64),
    Str(String),
    Arr(Vec<JsonValue>),
    Obj(Vec<(String, JsonValue)>),
}

/// Mathematical model of a [`JsonValue`].
pub enum JsonVal {
    Null,
    Bool(bool),
    Int(int),
    Str(Seq<char>),
    Arr(Seq<JsonVal>),
    Obj(Seq<(Seq<char>, JsonVal)>),
}

/// Model of a runtime JSON value.
pub open spec fn jview(v: JsonValue) -> JsonVal
    decreases v,
{
    match v {
        JsonValue::Null => JsonVal::Null,
        JsonValue::Bool(b) => JsonVal::Bool(b),
        JsonValue::Int(n) => JsonVal::Int(n as int),
        JsonValue::Str(s) => JsonVal::Str(s@),
        JsonValue::Arr(items) => JsonVal::Arr(jview_items(items@)),
        JsonValue::Obj(fields) => JsonVal::Obj(jview_fields(fields@)),
    }
}

pub open spec fn jview_items(items: Seq<JsonValue>) -> Seq<JsonVal>
    decreases items,
{
    if items.len() == 0 {
        Seq::<JsonVal>::empty()
    } else {
        seq![jview(items[0])] + jview_items(items.drop_first())
    }
}

pub open spec fn jview_fields(fields: Seq<(String, JsonValue)>) -> Seq<(Seq<char>, JsonVal)>
    decreases fields,
{
    if fields.len() == 0 {
        Seq::<(Seq<char>, JsonVal)>::empty()
    } else {
        seq![(fields[0].0@, jview(fields[0].1))] + jview_fields(fields.drop_first())
    }
}

pub proof fn lemma_jview_items_index(items: Seq<JsonValue>)
    ensures
        jview_items(items).len() == items.len(),
        forall|i: int| 0 <= i < items.len() ==> jview_items(items)[i] == jview(#[trigger] items[i]),
    decreases items,
{
    if items.len() > 0 {
        lemma_jview_items_index(items.drop_first());
        assert forall|i: int| 0 <= i < items.len() implies jview_items(items)[i] == jview(
            #[trigger] items[i],
        ) by {
            if i > 0 {
                assert(items.drop_first()[i - 1] == items[i]);
                assert(jview_items(items)[i] == jview_items(items.drop_first())[i - 1]);
            }
        }
    }
}

pub proof fn lemma_jview_fields_index(fields: Seq<(String, JsonValue)>)
    ensures
        jview_fields(fields).len() == fields.len(),
        forall|i: int| 0 <= i < fields.len() ==> jview_fields(fields)[i] == (
            (#[trigger] fields[i]).0@,
            jview(fields[i].1),
        ),
    decreases fields,
{
    if fields.len() > 0 {
        lemma_jview_fields_index(fields.drop_first());
        assert forall|i: int| 0 <= i < fields.len() implies jview_fields(fields)[i] == (
            (#[trigger] fields[i]).0@,
            jview(fields[i].1),
        ) by {
            if i > 0 {
                assert(fields.drop_first()[i - 1] == fields[i]);
                assert(jview_fields(fields)[i] == jview_fields(fields.drop_first())[i - 1]);
            }
        }
    }
}

/// Field lookup on a model object, first match wins.
pub open spec fn lookup_fields(fields: Seq<(Seq<char>, JsonVal)>, key: Seq<char>) -> Option<
    JsonVal,
>
    decreases fields.len(),
{
    if fields.len() == 0 {
        None
    } else if fields[0].0 == key {
        Some(fields[0].1)
    } else {
        lookup_fields(fields.drop_first(), key)
    }
}

/// Field lookup on a model value: `None` unless it is an object with the key.
pub open spec fn obj_lookup(v: JsonVal, key: Seq<char>) -> Option<JsonVal> {
    match v {
        JsonVal::Obj(fields) => lookup_fields(fields, key),
        _ => None,
    }
}

impl JsonValue {
    /// Deep copy.
    #[verifier::loop_isolation(false)]
    pub fn duplicate(&self) -> (r: JsonValue)
        ensures
            jview(r) == jview(*self),
        decreases *self,
    {
        match self {
            JsonValue::Null => JsonValue::Null,
            JsonValue::Bool(b) => JsonValue::Bool(*b),
            JsonValue::Int(n) => JsonValue::Int(*n),
            JsonValue::Str(s) => JsonValue::Str(s.clone()),
            JsonValue::Arr(items) => {
                let mut out: Vec<JsonValue> = Vec::new();
                let mut i: usize = 0;
                while i < items.len()
                    invariant
                        0 <= i <= items@.len(),
                        jview_items(out@) == jview_items(items@.take(i as int)),
                    decreases items@.len() - i,
                {
                    proof {
                        assert(decreases_to!(*self => self->Arr_0));
                        assert(decreases_to!(*items => items[i as int]));
                    }
                    let ghost out_prev = out@;
                    out.push(items[i].duplicate());
                    proof {
                        lemma_jview_items_index(out_prev);
                        lemma_jview_items_index(out@);
                        lemma_jview_items_index(items@.take(i + 1));
                        lemma_jview_items_index(items@.take(i as int));
                        assert(out_prev.len() == i);
                        assert forall|j: int| 0 <= j < i + 1 implies jview_items(out@)[j]
                            == jview_items(items@.take(i + 1))[j] by {
                            if j < i {
                                assert(out@[j] == out_prev[j]);
                                assert(jview_items(out_prev)[j] == jview_items(
                                    items@.take(i as int),
                                )[j]);
                                assert(items@.take(i as int)[j] == items@.take(i + 1)[j]);
                            } else {
                                assert(items@.take(i + 1)[j] == items@[i as int]);
                            }
                        }
                        assert(jview_items(out@) =~= jview_items(items@.take(i + 1)));
                    }
                    i = i + 1;
                }
                proof {
                    assert(items@.take(items@.len() as int) =~= items@);
                }
                JsonValue::Arr(out)
            },
            JsonValue::Obj(fields) => {
                let mut out: Vec<(String, JsonValue)> = Vec::new();
                let mut i: usize = 0;
                while i < fields.len()
                    invariant
                        0 <= i <= fields@.len(),
                        jview_fields(out@) == jview_fields(fields@.take(i as int)),
                    decreases fields@.len() - i,
                {
                    proof {
                        assert(decreases_to!(*self => self->Obj_0));
                        assert(decreases_to!(*fields => fields[i as int]));
                        assert(decreases_to!(fields[i as int] => fields[i as int].1));
                    }
                    let k = fields[i].0.clone();
                    let v = fields[i].1.duplicate();
                    let ghost out_prev = out@;
                    out.push((k, v));
                    proof {
                        lemma_jview_fields_index(out_prev);
                        lemma_jview_fields_index(out@);
                        lemma_jview_fields_index(fields@.take(i + 1));
                        lemma_jview_fields_index(fields@.take(i as int));
                        assert(out_prev.len() == i);
                        assert forall|j: int| 0 <= j < i + 1 implies jview_fields(out@)[j]
                            == jview_fields(fields@.take(i + 1))[j] by {
                            if j < i {
                                assert(out@[j] == out_prev[j]);
                                assert(jview_fields(out_prev)[j] == jview_fields(
                                    fields@.take(i as int),
                                )[j]);
                                assert(fields@.take(i as int)[j] == fields@.take(i + 1)[j]);
                            } else {
                                assert(fields@.take(i + 1)[j] == fields@[i as int]);
                            }
                        }
                        assert(jview_fields(out@) =~= jview_fields(fields@.take(i + 1)));
                    }
                    i = i + 1;
                }
                proof {
                    assert(fields@.take(fields@.len() as int) =~= fields@);
                }
                JsonValue::Obj(out)
            },
        }
    }

    /// Look up a field of an object by key; `None` on other values or a
    /// missing key (first match wins).
    #[verifier::loop_isolation(false)]
    pub fn get_field(&self, key: &str) -> (r: Option<&JsonValue>)
        ensures
            match r {
                Some(v) => obj_lookup(jview(*self), key@) == Some(jview(*v)),
                None => obj_lookup(jview(*self), key@) is None,
            },
    {
        match self {
            JsonValue::Obj(fields) => {
                proof {
                    lemma_jview_fields_index(fields@);
                }
                let ghost fv = jview_fields(fields@);
                proof {
                    assert(fv.skip(0) =~= fv);
                }
                let mut i: usize = 0;
                while i < fields.len()
                    invariant
                        0 <= i <= fields@.len(),
                        lookup_fields(fv, key@) == lookup_fields(fv.skip(i as int), key@),
                    decreases fields@.len() - i,
                {
                    proof {
                        assert(fv.skip(i as int)[0] == fv[i as int]);
                        assert(fv.skip(i as int).drop_first() =~= fv.skip(i + 1));
                    }
                    if crate::strutil::str_eq(fields[i].0.as_str(), key) {
                        return Some(&fields[i].1);
                    }
                    i = i + 1;
                }
                proof {
                    assert(fv.skip(i as int) =~= Seq::<(Seq<char>, JsonVal)>::empty());
                }
                None
            },
            _ => None,
        }
    }
}

/// A value models a string exactly when it is one.
pub proof fn lemma_jview_is_str(v: JsonValue)
    ensures
        jview(v) is Str <==> v is Str,
{
    match v {
        JsonValue::Null => {},
        JsonValue::Bool(_) => {},
        JsonValue::Int(_) => {},
        JsonValue::Str(_) => {},
        JsonValue::Arr(_) => {},
        JsonValue::Obj(_) => {},
    }
}

/// Canonical escape of one character inside a JSON string literal.
pub open spec fn esc_char(c: char) -> Seq<char> {
    if c == '"' {
        seq!['\\', '"']
    } else if c == '\\' {
        seq!['\\', '\\']
    } else if (c as u32) < 32 {
        seq!['\\', 'u', '0', '0', hex_digit(((c as u32) / 16) as int), hex_digit(
            ((c as u32) % 16) as int,
        )]
    } else {
        seq![c]
    }
}

/// Escaped body of a JSON string literal.
pub open spec fn esc_str(s: Seq<char>) -> Seq<char>
    decreases s.len(),
{
    if s.len() == 0 {
        Seq::<char>::empty()
    } else {
        esc_char(s[0]) + esc_str(s.drop_first())
    }
}

/// A JSON string literal, quotes included.
pub open spec fn ser_string(s: Seq<char>) -> Seq<char> {
    seq!['"'] + esc_str(s) + seq!['"']
}

/// A JSON integer literal.
pub open spec fn ser_int(n: int) -> Seq<char> {
    if n >= 0 {
        dec_of(n as nat)
    } else {
        seq!['-'] + dec_of((-n) as nat)
    }
}

/// Canonical compact JSON text of a model value.
pub open spec fn ser_val(v: JsonVal) -> Seq<char>
    decreases v,
{
    match v {
        JsonVal::Null => seq!['n', 'u', 'l', 'l'],
        JsonVal::Bool(b) => if b {
            seq!['t', 'r', 'u', 'e']
        } else {
            seq!['f', 'a', 'l', 's', 'e']
        },
        JsonVal::Int(n) => ser_int(n),
        JsonVal::Str(s) => ser_string(s),
        JsonVal::Arr(items) => seq!['['] + ser_items(items) + seq![']'],
        JsonVal::Obj(fields) => seq!['{'] + ser_fields(fields) + seq!['}'],
    }
}

/// Comma-separated renderings of array items.
pub open spec fn ser_items(items: Seq<JsonVal>) -> Seq<char>
    decreases items,
{
    if items.len() == 0 {
        Seq::<char>::empty()
    } else if items.len() == 1 {
        ser_val(items[0])
    } else {
        ser_val(items[0]) + seq![','] + ser_items(items.drop_first())
    }
}

/// Comma-separated `"key":value` renderings of object fields.
pub open spec fn ser_fields(fields: Seq<(Seq<char>, JsonVal)>) -> Seq<char>
    decreases fields,
{
    if fields.len() == 0 {
        Seq::<char>::empty()
    } else {
        let head = ser_string(fields[0].0) + seq![':'] + ser_val(fields[0].1);
        if fields.len() == 1 {
            head
        } else {
            head + seq![','] + ser_fields(fields.drop_first())
        }
    }
}

fn write_escaped(s: &String, out: &mut Vec<char>)
    ensures
        final(out)@ == old(out)@ + esc_str(s@),
{
    let cs = str_to_chars(s.as_str());
    let mut i: usize = 0;
    while i < cs.len()
        invariant
            0 <= i <= cs@.len(),
            cs@ == s@,
            out@ == old(out)@ + esc_str(s@.take(i as int)),
        decreases cs@.len() - i,
    {
        let c = cs[i];
        if c == '"' {
            out.push('\\');
            out.push('"');
        } else if c == '\\' {
            out.push('\\');
            out.push('\\');
        } else if (c as u32) < 32 {
            out.push('\\');
            out.push('u');
            out.push('0');
            out.push('0');
            let lo: u8 = ((c as u32) % 256) as u8;
            proof {
                assert((c as u32) < 32);
                assert((c as u32) % 256 == c as u32);
                assert(lo as int == (c as u32) as int);
            }
            out.push(crate::numfmt::hex_char(lo / 16));
            out.push(crate::numfmt::hex_char(lo % 16));
        } else {
            out.push(c);
        }
        proof {
            lemma_esc_str_snoc(s@, i as int);
            assert(out@ =~= old(out)@ + esc_str(s@.take(i + 1)));
        }
        i = i + 1;
    }
    proof {
        assert(s@.take(s@.len() as int) =~= s@);
    }
}

/// Splitting the escaped body after one more character.
proof fn lemma_esc_str_snoc(s: Seq<char>, i: int)
    requires
        0 <= i < s.len(),
    ensures
        esc_str(s.take(i + 1)) == esc_str(s.take(i)) + esc_char(s[i]),
    decreases i,
{
    if i == 0 {
        assert(s.take(1).drop_first() =~= Seq::<char>::empty());
        assert(s.take(0) =~= Seq::<char>::empty());
        assert(s.take(1)[0] == s[0]);
        assert(s.take(1).len() == 1);
        assert(esc_str(s.take(1)) == esc_char(s.take(1)[0]) + esc_str(s.take(1).drop_first()));
        assert(esc_str(Seq::<char>::empty()) =~= Seq::<char>::empty());
        assert(esc_str(s.take(1)) =~= esc_char(s[0]));
        assert(esc_str(s.take(i + 1)) =~= esc_str(s.take(i)) + esc_char(s[i]));
    } else {
        lemma_esc_str_snoc(s.drop_first(), i - 1);
        assert(s.take(i + 1).drop_first() =~= s.drop_first().take(i));
        assert(s.take(i).drop_first() =~= s.drop_first().take(i - 1));
        assert(s.take(i + 1)[0] == s[0]);
        assert(s.take(i)[0] == s[0]);
        assert(s.drop_first()[i - 1] == s[i]);
        assert(esc_str(s.take(i + 1)) == esc_char(s[0]) + esc_str(s.drop_first().take(i)));
        assert(esc_str(s.take(i)) == esc_char(s[0]) + esc_str(s.drop_first().take(i - 1)));
        assert(esc_str(s.take(i + 1)) =~= esc_str(s.take(i)) + esc_char(s[i]));
    }
}

fn write_int(n: i64, out: &mut Vec<char>)
    ensures
        final(out)@ == old(out)@ + ser_int(n as int),
{
    if n >= 0 {
        push_dec(n as u64, out);
    } else {
        out.push('-');
        let m: u64 = (-(n as i128)) as u64;
        proof {
            assert(m == -(n as int));
        }
        push_dec(m, out);
        proof {
            assert(out@ =~= old(out)@ + ser_int(n as int));
        }
    }
}

/// Append the canonical JSON text of `v` to `out`.
#[verifier::loop_isolation(false)]
#[verifier::rlimit(60)]
pub fn write_value(v: &JsonValue, out: &mut Vec<char>)
    ensures
        final(out)@ == old(out)@ + ser_val(jview(*v)),
    decreases *v,
{
    match v {
        JsonValue::Null => {
            out.push('n');
            out.push('u');
            out.push('l');
            out.push('l');
            proof {
                assert(out@ =~= old(out)@ + ser_val(jview(*v)));
            }
        },
        JsonValue::Bool(b) => {
            if *b {
                out.push('t');
                out.push('r');
                out.push('u');
                out.push('e');
            } else {
                out.push('f');
                out.push('a');
                out.push('l');
                out.push('s');
                out.push('e');
            }
            proof {
                assert(out@ =~= old(out)@ + ser_val(jview(*v)));
            }
        },
        JsonValue::Int(n) => {
            write_int(*n, out);
        },
        JsonValue::Str(s) => {
            out.push('"');
            write_escaped(s, out);
            out.push('"');
            proof {
                assert(out@ =~= old(out)@ + ser_val(jview(*v)));
            }
        },
        JsonValue::Arr(items) => {
            proof {
                lemma_jview_items_index(items@);
            }
            let ghost vi = jview_items(items@);
            out.push('[');
            let mut i: usize = 0;
            while i < items.len()
                invariant
                    0 <= i <= items@.len(),
                    i == 0 ==> out@ == old(out)@ + seq!['['],
                    i > 0 ==> out@ == old(out)@ + seq!['['] + ser_items(vi.take(i as int)),
                decreases items@.len() - i,
            {
                if i > 0 {
                    out.push(',');
                }
                proof {
                    assert(decreases_to!(*v => v->Arr_0));
                    assert(decreases_to!(*items => items[i as int]));
                }
                write_value(&items[i], out);
                proof {
                    lemma_ser_items_snoc(vi, i as int);
                    if i == 0 {
                        assert(vi.take(1) =~= seq![vi[0]]);
                        assert(ser_items(vi.take(1)) == ser_val(vi[0]));
                        assert(out@ =~= old(out)@ + seq!['['] + ser_items(vi.take(1)));
                    } else {
                        assert(out@ =~= old(out)@ + seq!['['] + ser_items(vi.take(i + 1)));
                    }
                }
                i = i + 1;
            }
            out.push(']');
            proof {
                if items@.len() == 0 {
                    assert(out@ =~= old(out)@ + ser_val(jview(*v)));
                } else {
                    assert(vi.take(vi.len() as int) =~= vi);
                    assert(out@ =~= old(out)@ + ser_val(jview(*v)));
                }
            }
        },
        JsonValue::Obj(fields) => {
            proof {
                lemma_jview_fields_index(fields@);
            }
            let ghost fv = jview_fields(fields@);
            out.push('{');
            let mut i: usize = 0;
            while i < fields.len()
                invariant
                    0 <= i <= fields@.len(),
                    i == 0 ==> out@ == old(out)@ + seq!['{'],
                    i > 0 ==> out@ == old(out)@ + seq!['{'] + ser_fields(fv.take(i as int)),
                decreases fields@.len() - i,
            {
                if i > 0 {
                    out.push(',');
                }
                out.push('"');
                write_escaped(&fields[i].0, out);
                out.push('"');
                out.push(':');
                proof {
                    assert(decreases_to!(*v => v->Obj_0));
                    assert(decreases_to!(*fields => fields[i as int]));
                    assert(decreases_to!(fields[i as int] => fields[i as int].1));
                }
                write_value(&fields[i].1, out);
                proof {
                    lemma_ser_fields_snoc(fv, i as int);
                    if i == 0 {
                        assert(fv.take(1) =~= seq![fv[0]]);
                        assert(out@ =~= old(out)@ + seq!['{'] + ser_fields(fv.take(1)));
                    } else {
                        assert(out@ =~= old(out)@ + seq!['{'] + ser_fields(fv.take(i + 1)));
                    }
                }
                i = i + 1;
            }
            out.push('}');
            proof {
                if fields@.len() == 0 {
                    assert(out@ =~= old(out)@ + ser_val(jview(*v)));
                } else {
                    assert(fv.take(fv.len() as int) =~= fv);
                    assert(out@ =~= old(out)@ + ser_val(jview(*v)));
                }
            }
        },
    }
}

/// Splitting an item list rendering after one more item.
proof fn lemma_ser_items_snoc(items: Seq<JsonVal>, i: int)
    requires
        0 <= i < items.len(),
    ensures
        i == 0 ==> ser_items(items.take(1)) == ser_val(items[0]),
        i > 0 ==> ser_items(items.take(i + 1)) == ser_items(items.take(i)) + seq![','] + ser_val(
            items[i],
        ),
    decreases i,
{
    if i == 0 {
        assert(items.take(1) =~= seq![items[0]]);
        assert(items.take(1).len() == 1);
    } else if i == 1 {
        assert(items.take(2).drop_first() =~= seq![items[1]]);
        assert(items.take(2)[0] == items[0]);
        assert(ser_items(items.take(2)) == ser_val(items[0]) + seq![','] + ser_items(
            seq![items[1]],
        ));
        assert(items.take(1) =~= seq![items[0]]);
        assert(ser_items(items.take(2)) =~= ser_items(items.take(1)) + seq![','] + ser_val(
            items[1],
        ));
    } else {
        lemma_ser_items_snoc(items.drop_first(), i - 1);
        assert(items.take(i + 1).drop_first() =~= items.drop_first().take(i));
        assert(items.take(i).drop_first() =~= items.drop_first().take(i - 1));
        assert(items.take(i + 1)[0] == items[0]);
        assert(items.take(i)[0] == items[0]);
        assert(items.drop_first()[i - 1] == items[i]);
        assert(items.take(i + 1).len() > 1);
        assert(items.take(i).len() > 1);
        assert(ser_items(items.take(i + 1)) == ser_val(items[0]) + seq![','] + ser_items(
            items.drop_first().take(i),
        ));
        assert(ser_items(items.take(i)) == ser_val(items[0]) + seq![','] + ser_items(
            items.drop_first().take(i - 1),
        ));
        assert(ser_items(items.take(i + 1)) =~= ser_items(items.take(i)) + seq![','] + ser_val(
            items[i],
        ));
    }
}

/// Splitting a field list rendering after one more field.
proof fn lemma_ser_fields_snoc(fields: Seq<(Seq<char>, JsonVal)>, i: int)
    requires
        0 <= i < fields.len(),
    ensures
        i == 0 ==> ser_fields(fields.take(1)) == ser_string(fields[0].0) + seq![':'] + ser_val(
            fields[0].1,
        ),
        i > 0 ==> ser_fields(fields.take(i + 1)) == ser_fields(fields.take(i)) + seq![',']
            + ser_string(fields[i].0) + seq![':'] + ser_val(fields[i].1),
    decreases i,
{
    if i == 0 {
        assert(fields.take(1) =~= seq![fields[0]]);
        assert(fields.take(1).len() == 1);
    } else if i == 1 {
        assert(fields.take(2).drop_first() =~= seq![fields[1]]);
        assert(fields.take(2)[0] == fields[0]);
        assert(fields.take(1) =~= seq![fields[0]]);
        assert(ser_fields(fields.take(2)) == ser_string(fields[0].0) + seq![':'] + ser_val(
            fields[0].1,
        ) + seq![','] + ser_fields(seq![fields[1]]));
        assert(ser_fields(seq![fields[1]]) == ser_string(fields[1].0) + seq![':'] + ser_val(
            fields[1].1,
        ));
        assert(ser_fields(fields.take(1)) == ser_string(fields[0].0) + seq![':'] + ser_val(
            fields[0].1,
        ));
        assert(ser_fields(fields.take(2)) =~= ser_fields(fields.take(1)) + seq![','] + ser_string(
            fields[1].0,
        ) + seq![':'] + ser_val(fields[1].1));
    } else {
        lemma_ser_fields_snoc(fields.drop_first(), i - 1);
        assert(fields.take(i + 1).drop_first() =~= fields.drop_first().take(i));
        assert(fields.take(i).drop_first() =~= fields.drop_first().take(i - 1));
        assert(fields.take(i + 1)[0] == fields[0]);
        assert(fields.take(i)[0] == fields[0]);
        assert(fields.drop_first()[i - 1] == fields[i]);
        assert(fields.take(i + 1).len() > 1);
        assert(fields.take(i).len() > 1);
        assert(ser_fields(fields.take(i + 1)) =~= ser_fields(fields.take(i)) + seq![',']
            + ser_string(fields[i].0) + seq![':'] + ser_val(fields[i].1));
    }
}

/// Canonical JSON text of `v` as a character vector.
pub fn to_chars(v: &JsonValue) -> (r: Vec<char>)
    ensures
        r@ == ser_val(jview(*v)),
{
    let mut out: Vec<char> = Vec::new();
    write_value(v, &mut out);
    proof {
        assert(out@ =~= ser_val(jview(*v)));
    }
    out
}

/// Canonical JSON text of `v` as a string.
pub fn to_json_string(v: &JsonValue) -> (r: String)
    ensures
        r@ == ser_val(jview(*v)),
{
    let cs = to_chars(v);
    chars_to_string(&cs)
}


/// Models whose integers fit the runtime representation.
pub open spec fn representable(w: JsonVal) -> bool
    decreases w,
{
    match w {
        JsonVal::Int(n) => i64::MIN <= n <= i64::MAX,
        JsonVal::Arr(items) => forall|i: int|
            0 <= i < items.len() ==> representable(#[trigger] items[i]),
        JsonVal::Obj(fields) => forall|i: int|
            0 <= i < fields.len() ==> representable((#[trigger] fields[i]).1),
        _ => true,
    }
}

/// The model of every runtime value is representable.
pub proof fn lemma_jview_representable(v: JsonValue)
    ensures
        representable(jview(v)),
    decreases v,
{
    match v {
        JsonValue::Arr(items) => {
            lemma_jview_items_index(items@);
            assert forall|i: int| 0 <= i < jview_items(items@).len() implies representable(
                #[trigger] jview_items(items@)[i],
            ) by {
                assert(decreases_to!(v => v->Arr_0));
                assert(decreases_to!(items => items[i]));
                lemma_jview_representable(items@[i]);
            }
        },
        JsonValue::Obj(fields) => {
            lemma_jview_fields_index(fields@);
            assert forall|i: int| 0 <= i < jview_fields(fields@).len() implies representable(
                (#[trigger] jview_fields(fields@)[i]).1,
            ) by {
                assert(decreases_to!(v => v->Obj_0));
                assert(decreases_to!(fields => fields[i]));
                assert(decreases_to!(fields[i] => fields[i].1));
                lemma_jview_representable(fields@[i].1);
            }
        },
        _ => {},
    }
}

} // verus!
