use vstd::prelude::*;

verus! {

// The generic structured value that crosses the wire codec: a closed
// tagged union shaped like JSON. A number is kept as its decimal literal,
// so no precision is lost in either direction.

#[derive(Debug)]
pub enum DynamicValue {
    Null,
    Bool(bool),
    /// A JSON number, held verbatim as its literal text.
    Num(String),
    Str(String),
    List(Vec<DynamicValue>),
    /// An ordered mapping from field name to value.
    Obj(Vec<(String, DynamicValue)>),
}

pub ghost enum ValueModel {
    Null,
    Bool(bool),
    Num(Seq<char>),
    Str(Seq<char>),
    List(Seq<ValueModel>),
    Obj(Seq<(Seq<char>, ValueModel)>),
}

pub open spec fn value_model(v: DynamicValue) -> ValueModel
    decreases v,
{
    match v {
        DynamicValue::Null => ValueModel::Null,
        DynamicValue::Bool(b) => ValueModel::Bool(b),
        DynamicValue::Num(s) => ValueModel::Num(s@),
        DynamicValue::Str(s) => ValueModel::Str(s@),
        DynamicValue::List(vs) => ValueModel::List(list_models(vs@)),
        DynamicValue::Obj(fields) => ValueModel::Obj(field_models(fields@)),
    }
}

pub open spec fn list_models(vs: Seq<DynamicValue>) -> Seq<ValueModel>
    decreases vs,
{
    if vs.len() == 0 {
        Seq::empty()
    } else {
        list_models(vs.drop_last()).push(value_model(vs.last()))
    }
}

pub open spec fn field_models(fields: Seq<(String, DynamicValue)>) -> Seq<(Seq<char>, ValueModel)>
    decreases fields,
{
    if fields.len() == 0 {
        Seq::empty()
    } else {
        field_models(fields.drop_last()).push(
            (fields.last().0@, value_model(fields.last().1)),
        )
    }
}

impl View for DynamicValue {
    type V = ValueModel;

    open spec fn view(&self) -> ValueModel {
        value_model(*self)
    }
}

pub open spec fn hex_digit(n: int) -> char {
    if n < 10 {
        ((48 + n) as u8) as char
    } else {
        ((87 + n) as u8) as char
    }
}

/// How one character of a string is written inside JSON quotes: the seven
/// named escapes, `\u00XX` with lowercase hex for other control
/// characters, and every other character verbatim.
pub open spec fn escape_char(c: char) -> Seq<char> {
    if c == '"' {
        seq!['\\', '"']
    } else if c == '\\' {
        seq!['\\', '\\']
    } else if c == '\u{8}' {
        seq!['\\', 'b']
    } else if c == '\t' {
        seq!['\\', 't']
    } else if c == '\n' {
        seq!['\\', 'n']
    } else if c == '\u{c}' {
        seq!['\\', 'f']
    } else if c == '\r' {
        seq!['\\', 'r']
    } else if (c as u32) < 32 {
        seq!['\\', 'u', '0', '0', hex_digit((c as u32) as int / 16), hex_digit(
            (c as u32) as int % 16,
        )]
    } else {
        seq![c]
    }
}

pub open spec fn escaped_chars(s: Seq<char>) -> Seq<char>
    decreases s.len(),
{
    if s.len() == 0 {
        Seq::empty()
    } else {
        escaped_chars(s.drop_last()) + escape_char(s.last())
    }
}

/// The JSON text of a value, exactly as the serializer emits it: no
/// whitespace, fields in order, numbers verbatim.
pub open spec fn json_of(v: ValueModel) -> Seq<char>
    decreases v,
{
    match v {
        ValueModel::Null => "null"@,
        ValueModel::Bool(b) => if b {
            "true"@
        } else {
            "false"@
        },
        ValueModel::Num(s) => s,
        ValueModel::Str(s) => seq!['"'] + escaped_chars(s) + seq!['"'],
        ValueModel::List(vs) => seq!['['] + json_of_list(vs) + seq![']'],
        ValueModel::Obj(fs) => seq!['{'] + json_of_fields(fs) + seq!['}'],
    }
}

pub open spec fn json_of_list(vs: Seq<ValueModel>) -> Seq<char>
    decreases vs,
{
    if vs.len() == 0 {
        Seq::empty()
    } else if vs.len() == 1 {
        json_of(vs[0])
    } else {
        json_of_list(vs.drop_last()) + seq![','] + json_of(vs.last())
    }
}

pub open spec fn json_of_field(f: (Seq<char>, ValueModel)) -> Seq<char>
    decreases f,
{
    seq!['"'] + escaped_chars(f.0) + seq!['"', ':'] + json_of(f.1)
}

pub open spec fn json_of_fields(fs: Seq<(Seq<char>, ValueModel)>) -> Seq<char>
    decreases fs,
{
    if fs.len() == 0 {
        Seq::empty()
    } else if fs.len() == 1 {
        json_of_field(fs[0])
    } else {
        json_of_fields(fs.drop_last()) + seq![','] + json_of_field(fs.last())
    }
}

/// Appends the escaped form of `s` to `out`.
fn write_escaped(s: &str, out: &mut Vec<char>)
    ensures
        final(out)@ == old(out)@ + escaped_chars(s@),
{
    let n: usize = s.unicode_len();
    let mut i: usize = 0;
    proof {
        assert(out@ + escaped_chars(s@.take(0)) =~= out@);
    }
    while i < n
        invariant
            n == s@.len(),
            i <= n,
            out@ == old(out)@ + escaped_chars(s@.take(i as int)),
        decreases n - i,
    {
        let c = s.get_char(i);
        proof {
            assert(s@.take(i + 1).drop_last() =~= s@.take(i as int));
            assert(s@.take(i + 1).last() == c);
            assert(escaped_chars(s@.take(i + 1)) == escaped_chars(s@.take(i as int))
                + escape_char(c));
        }
        if c == '"' {
            out.push('\\');
            out.push('"');
        } else if c == '\\' {
            out.push('\\');
            out.push('\\');
        } else if c == '\u{8}' {
            out.push('\\');
            out.push('b');
        } else if c == '\t' {
            out.push('\\');
            out.push('t');
        } else if c == '\n' {
            out.push('\\');
            out.push('n');
        } else if c == '\u{c}' {
            out.push('\\');
            out.push('f');
        } else if c == '\r' {
            out.push('\\');
            out.push('r');
        } else if (c as u32) < 32 {
            out.push('\\');
            out.push('u');
            out.push('0');
            out.push('0');
            let code = c as u32;
            let hi = code / 16;
            let lo = code % 16;
            let hc = if hi < 10 {
                ((48 + hi) as u8) as char
            } else {
                ((87 + hi) as u8) as char
            };
            let lc = if lo < 10 {
                ((48 + lo) as u8) as char
            } else {
                ((87 + lo) as u8) as char
            };
            out.push(hc);
            out.push(lc);
        } else {
            out.push(c);
        }
        proof {
            assert(out@ =~= old(out)@ + escaped_chars(s@.take(i + 1)));
        }
        i += 1;
    }
    proof {
        assert(s@.take(n as int) =~= s@);
    }
}

/// Appends the JSON text of `v` to `out`.
fn write_value(v: &DynamicValue, out: &mut Vec<char>)
    ensures
        final(out)@ == old(out)@ + json_of(v@),
    decreases *v,
{
    match v {
        DynamicValue::Null => {
            out.push('n');
            out.push('u');
            out.push('l');
            out.push('l');
            proof {
                reveal_strlit("null");
                assert(out@ =~= old(out)@ + "null"@);
            }
        },
        DynamicValue::Bool(b) => {
            if *b {
                out.push('t');
                out.push('r');
                out.push('u');
                out.push('e');
                proof {
                    reveal_strlit("true");
                    assert(out@ =~= old(out)@ + "true"@);
                }
            } else {
                out.push('f');
                out.push('a');
                out.push('l');
                out.push('s');
                out.push('e');
                proof {
                    reveal_strlit("false");
                    assert(out@ =~= old(out)@ + "false"@);
                }
            }
        },
        DynamicValue::Num(s) => {
            let n: usize = s.as_str().unicode_len();
            let mut i: usize = 0;
            proof {
                assert(out@ =~= old(out)@ + s@.take(0));
            }
            while i < n
                invariant
                    n == s@.len(),
                    i <= n,
                    out@ == old(out)@ + s@.take(i as int),
                decreases n - i,
            {
                let c = s.as_str().get_char(i);
                out.push(c);
                proof {
                    assert(s@.take(i + 1) =~= s@.take(i as int).push(c));
                    assert(out@ =~= old(out)@ + s@.take(i + 1));
                }
                i += 1;
            }
            proof {
                assert(s@.take(n as int) =~= s@);
            }
        },
        DynamicValue::Str(s) => {
            out.push('"');
            write_escaped(s.as_str(), out);
            out.push('"');
            proof {
                assert(out@ =~= old(out)@ + (seq!['"'] + escaped_chars(s@) + seq!['"']));
            }
        },
        DynamicValue::List(vs) => {
            out.push('[');
            let n = vs.len();
            let mut i: usize = 0;
            proof {
                assert(list_models(vs@.take(0)) =~= Seq::<ValueModel>::empty());
                assert(out@ =~= old(out)@ + seq!['['] + json_of_list(list_models(vs@.take(0))));
            }
            while i < n
                invariant
                    n == vs@.len(),
                    i <= n,
                    *v == DynamicValue::List(*vs),
                    out@ == old(out)@ + seq!['['] + json_of_list(list_models(vs@.take(i as int))),
                decreases n - i,
            {
                if i > 0 {
                    out.push(',');
                }
                proof {
                    broadcast use vstd::std_specs::vec::axiom_vec_index_decreases;

                    assert(*v == DynamicValue::List(*vs));
                    assert(v->List_0 == *vs);
                    assert(decreases_to!(*v => v->List_0));
                    assert(decreases_to!(*vs => (*vs)[i as int]));
                }
                write_value(&vs[i], out);
                proof {
                    assert(vs@.take(i + 1).drop_last() =~= vs@.take(i as int));
                    assert(vs@.take(i + 1).last() == vs@[i as int]);
                    assert(list_models(vs@.take(i + 1)) == list_models(vs@.take(i as int)).push(
                        value_model(vs@[i as int]),
                    ));
                    let ms = list_models(vs@.take(i as int));
                    assert(ms.len() == i as int) by {
                        lemma_list_models_len(vs@.take(i as int));
                    }
                    let ms1 = list_models(vs@.take(i + 1));
                    assert(ms1.drop_last() =~= ms);
                    assert(ms1.last() == value_model(vs@[i as int]));
                    if i == 0 {
                        assert(json_of_list(ms1) == json_of(value_model(vs@[0])));
                    } else {
                        assert(json_of_list(ms1) == json_of_list(ms) + seq![','] + json_of(
                            value_model(vs@[i as int]),
                        ));
                    }
                    assert(out@ =~= old(out)@ + seq!['['] + json_of_list(ms1));
                }
                i += 1;
            }
            out.push(']');
            proof {
                assert(vs@.take(n as int) =~= vs@);
                assert(out@ =~= old(out)@ + json_of(v@));
            }
        },
        DynamicValue::Obj(fields) => {
            out.push('{');
            let n = fields.len();
            let mut i: usize = 0;
            proof {
                assert(field_models(fields@.take(0)) =~= Seq::<(Seq<char>, ValueModel)>::empty());
                assert(out@ =~= old(out)@ + seq!['{'] + json_of_fields(
                    field_models(fields@.take(0)),
                ));
            }
            while i < n
                invariant
                    n == fields@.len(),
                    i <= n,
                    *v == DynamicValue::Obj(*fields),
                    out@ == old(out)@ + seq!['{'] + json_of_fields(
                        field_models(fields@.take(i as int)),
                    ),
                decreases n - i,
            {
                if i > 0 {
                    out.push(',');
                }
                out.push('"');
                write_escaped(fields[i].0.as_str(), out);
                out.push('"');
                out.push(':');
                proof {
                    broadcast use vstd::std_specs::vec::axiom_vec_index_decreases;

                    assert(*v == DynamicValue::Obj(*fields));
                    assert(v->Obj_0 == *fields);
                    assert(decreases_to!(*v => v->Obj_0));
                    assert(decreases_to!(*fields => (*fields)[i as int]));
                    assert(decreases_to!((*fields)[i as int] => (*fields)[i as int].1));
                }
                write_value(&fields[i].1, out);
                proof {
                    assert(fields@.take(i + 1).drop_last() =~= fields@.take(i as int));
                    assert(fields@.take(i + 1).last() == fields@[i as int]);
                    assert(field_models(fields@.take(i + 1)) == field_models(
                        fields@.take(i as int),
                    ).push((fields@[i as int].0@, value_model(fields@[i as int].1))));
                    let ms = field_models(fields@.take(i as int));
                    assert(ms.len() == i as int) by {
                        lemma_field_models_len(fields@.take(i as int));
                    }
                    let ms1 = field_models(fields@.take(i + 1));
                    assert(ms1.drop_last() =~= ms);
                    assert(ms1.last() == (fields@[i as int].0@, value_model(fields@[i as int].1)));
                    if i == 0 {
                        assert(json_of_fields(ms1) == json_of_field(ms1[0]));
                    } else {
                        assert(json_of_fields(ms1) == json_of_fields(ms) + seq![',']
                            + json_of_field(ms1.last()));
                    }
                    assert(out@ =~= old(out)@ + seq!['{'] + json_of_fields(ms1));
                }
                i += 1;
            }
            out.push('}');
            proof {
                assert(fields@.take(n as int) =~= fields@);
                assert(out@ =~= old(out)@ + json_of(v@));
            }
        },
    }
}

pub proof fn lemma_list_models_len(vs: Seq<DynamicValue>)
    ensures
        list_models(vs).len() == vs.len(),
    decreases vs,
{
    if vs.len() > 0 {
        lemma_list_models_len(vs.drop_last());
    }
}

pub proof fn lemma_field_models_len(fs: Seq<(String, DynamicValue)>)
    ensures
        field_models(fs).len() == fs.len(),
    decreases fs,
{
    if fs.len() > 0 {
        lemma_field_models_len(fs.drop_last());
    }
}

/// Serializes a value to its JSON text: no whitespace, fields kept in
/// order, number literals verbatim.
pub fn to_json(v: &DynamicValue) -> (r: String)
    ensures
        r@ == json_of(v@),
{
    let mut out: Vec<char> = Vec::new();
    write_value(v, &mut out);
    crate::names::chars_to_string(&out)
}

/// Relies on `str::chars` collected through `Vec`'s `FromIterator`: the
/// result holds exactly the string's characters in order.
#[verifier::external_body]
fn string_chars(s: &str) -> (r: Vec<char>)
    ensures
        r@ == s@,
{
    s.chars().collect()
}

pub open spec fn is_number_char(c: char) -> bool {
    ('0' <= c && c <= '9') || c == '-' || c == '+' || c == '.' || c == 'e' || c == 'E'
}

fn num_char(d: char) -> (r: bool)
    ensures
        r == is_number_char(d),
{
    ('0' <= d && d <= '9') || d == '-' || d == '+' || d == '.' || d == 'e' || d == 'E'
}

/// Parses a quoted string starting at `pos`, undoing exactly the escapes
/// the serializer writes; any other escape or a raw control character is
/// rejected.
/// The layout facts one decoding step needs: where the cursor stands, and
/// what the text holds there — the closing quote when the string is fully
/// decoded, otherwise the next character's escape group.
proof fn lemma_string_at_step(cs: Seq<char>, pos: int, t: Seq<char>, out: Seq<char>, cur: int)
    requires
        string_at(cs, pos, t),
        out.len() <= t.len(),
        out == t.take(out.len() as int),
        cs.subrange(pos + 1, cur) == escaped_chars(out),
        0 <= pos < cur <= cs.len(),
    ensures
        cur == pos + 1 + escaped_chars(t.take(out.len() as int)).len(),
        cur <= pos + 1 + escaped_chars(t).len(),
        out.len() == t.len() ==> cs[cur] == '"',
        out.len() < t.len() ==> cur + escape_char(t[out.len() as int]).len() <= pos + 1
            + escaped_chars(t).len() && cs[cur] == escape_char(t[out.len() as int])[0] && (
        forall|i: int|
            0 <= i < escape_char(t[out.len() as int]).len() ==> cs[cur + i] == escape_char(
                t[out.len() as int],
            )[i]),
{
    let k = out.len() as int;
    let e_all = escaped_chars(t);
    let e_done = escaped_chars(t.take(k));
    assert(t.take(k) + t.skip(k) =~= t);
    lemma_escaped_add(t.take(k), t.skip(k));
    assert(e_all == e_done + escaped_chars(t.skip(k)));
    assert(escaped_chars(out) == e_done);
    assert(cur - (pos + 1) == e_done.len()) by {
        assert(cs.subrange(pos + 1, cur).len() == cur - (pos + 1));
    }
    let layout = seq!['"'] + escaped_chars(t) + seq!['"'];
    assert(layout.len() == 2 + escaped_chars(t).len());
    assert(cs.subrange(pos, pos + 2 + escaped_chars(t).len()) == layout);
    assert forall|j: int| 0 <= j < layout.len() implies cs[pos + j] == layout[j] by {
        assert(cs.subrange(pos, pos + 2 + escaped_chars(t).len())[j] == cs[pos + j]);
    }
    if k == t.len() {
        assert(t.skip(k).len() == 0);
        assert(escaped_chars(t.skip(k)) =~= Seq::<char>::empty());
        assert(e_all.len() == e_done.len());
        assert(cs[cur] == layout[1 + e_all.len() as int]);
    } else {
        let c0 = t[k];
        assert(t.skip(k)[0] == c0);
        lemma_escaped_front(t.skip(k));
        assert(t.skip(k).drop_first() =~= t.skip(k + 1));
        let g = escape_char(c0);
        assert(escaped_chars(t.skip(k)) == g + escaped_chars(t.skip(k + 1)));
        assert(cur + g.len() <= pos + 1 + e_all.len());
        assert forall|i: int| 0 <= i < g.len() implies cs[cur + i] == g[i] by {
            assert(cs[cur + i] == layout[1 + e_done.len() + i]);
            assert(layout[1 + e_done.len() + i] == e_all[e_done.len() + i]);
            assert(e_all[e_done.len() + i] == escaped_chars(t.skip(k))[i]);
            assert(escaped_chars(t.skip(k))[i] == g[i]);
        }
        assert(cs[cur] == g[0]) by {
            assert(cs[cur + 0] == g[0]);
        }
    }
}

proof fn lemma_hex_digit_range(d: int)
    requires
        0 <= d < 16,
    ensures
        d < 10 ==> (hex_digit(d) as u32) == 48 + d,
        d >= 10 ==> (hex_digit(d) as u32) == 87 + d,
        ('0' <= hex_digit(d) && hex_digit(d) <= '9') || ('a' <= hex_digit(d) && hex_digit(d)
            <= 'f'),
{
    if d < 10 {
        assert((((48 + d) as u8) as char) as u32 == 48 + d);
    } else {
        assert((((87 + d) as u8) as char) as u32 == 87 + d);
    }
}

/// Parses a quoted string starting at `pos`, undoing exactly the escapes
/// the serializer writes; any other escape or a raw control character is
/// rejected. When the ghost hint names a string whose quoted escaped form
/// stands at `pos`, the parse succeeds.
#[verifier::rlimit(100)]
fn parse_string(cs: &Vec<char>, pos: usize, hint: Ghost<Option<Seq<char>>>) -> (r: Option<
    (String, usize),
>)
    requires
        pos < cs@.len(),
        cs@[pos as int] == '"',
    ensures
        r matches Option::Some(p) ==> pos < p.1 <= cs@.len() && cs@.subrange(
            pos as int,
            p.1 as int,
        ) == seq!['"'] + escaped_chars(p.0@) + seq!['"'],
        (hint@ matches Option::Some(t) && string_at(cs@, pos as int, t)) ==> r is Some,
{
    let ghost t: Seq<char> = match hint@ {
        Option::Some(t0) => t0,
        Option::None => Seq::empty(),
    };
    let ghost active = hint@ is Some && string_at(cs@, pos as int, t);
    let n = cs.len();
    let mut out: Vec<char> = Vec::new();
    let mut cur: usize = pos + 1;
    proof {
        assert(out@ =~= t.take(0));
    }
    while cur < n
        invariant
            n == cs@.len(),
            pos < cur <= n,
            cs@[pos as int] == '"',
            cs@.subrange(pos + 1, cur as int) == escaped_chars(out@),
            hint@ matches Option::Some(t0) ==> t0 == t,
            active == (hint@ is Some && string_at(cs@, pos as int, t)),
            active ==> out@.len() <= t.len() && out@ == t.take(out@.len() as int),
        decreases n - cur,
    {
        let ghost k = out@.len() as int;
        proof {
            if active {
                lemma_string_at_step(cs@, pos as int, t, out@, cur as int);
            }
        }
        let c = cs[cur];
        let ghost consumed_before = cs@.subrange(pos + 1, cur as int);
        if c == '"' {
            let s = crate::names::chars_to_string(&out);
            proof {
                assert(cs@.subrange(pos as int, cur + 1) =~= seq!['"'] + escaped_chars(s@)
                    + seq!['"']);
            }
            return Some((s, cur + 1));
        }
        proof {
            if active {
                // the closing quote was not reached, so another escape
                // group stands here
                assert(k < t.len());
            }
        }
        if c == '\\' {
            proof {
                if active {
                    assert(escape_char(t[k]).len() >= 2) by {
                        if escape_char(t[k]).len() == 1 {
                            assert(cs@[cur as int] == escape_char(t[k])[0]);
                        }
                    }
                    assert(cur + 2 <= pos + 1 + escaped_chars(t).len());
                    assert(pos + 2 + escaped_chars(t).len() <= n);
                }
            }
            if cur + 1 >= n {
                return None;
            }
            let e = cs[cur + 1];
            proof {
                if active {
                    assert(e == escape_char(t[k])[1]);
                }
            }
            let mut decoded: char = ' ';
            let mut used: usize = 2;
            if e == '"' {
                decoded = '"';
            } else if e == '\\' {
                decoded = '\\';
            } else if e == 'b' {
                decoded = '\u{8}';
            } else if e == 't' {
                decoded = '\t';
            } else if e == 'n' {
                decoded = '\n';
            } else if e == 'f' {
                decoded = '\u{c}';
            } else if e == 'r' {
                decoded = '\r';
            } else if e == 'u' {
                proof {
                    if active {
                        let g = escape_char(t[k]);
                        assert(g.len() == 6);
                        assert(cur + 6 <= pos + 1 + escaped_chars(t).len());
                        assert((t[k] as u32) < 32);
                        lemma_hex_digit_range((t[k] as u32) as int / 16);
                        lemma_hex_digit_range((t[k] as u32) as int % 16);
                    }
                }
                if n - cur < 6 {
                    return None;
                }
                if cs[cur + 2] != '0' || cs[cur + 3] != '0' {
                    return None;
                }
                let h = cs[cur + 4];
                let l = cs[cur + 5];
                let hv: u32 = if '0' <= h && h <= '9' {
                    (h as u32) - 48
                } else if 'a' <= h && h <= 'f' {
                    (h as u32) - 87
                } else {
                    return None;
                };
                let lv: u32 = if '0' <= l && l <= '9' {
                    (l as u32) - 48
                } else if 'a' <= l && l <= 'f' {
                    (l as u32) - 87
                } else {
                    return None;
                };
                let code = hv * 16 + lv;
                proof {
                    if active {
                        assert(h == hex_digit((t[k] as u32) as int / 16));
                        assert(l == hex_digit((t[k] as u32) as int % 16));
                        assert(hv == (t[k] as u32) / 16);
                        assert(lv == (t[k] as u32) % 16);
                        assert(code == (t[k] as u32));
                        assert(code < 32);
                        assert(code != 8 && code != 9 && code != 10 && code != 12 && code != 13)
                            by {
                            assert(('\u{8}' as u32) == 8 && ('\t' as u32) == 9 && ('\n' as u32)
                                == 10 && ('\u{c}' as u32) == 12 && ('\r' as u32) == 13);
                            if code == 8 {
                                lemma_char_u32_injective(t[k], '\u{8}');
                            } else if code == 9 {
                                lemma_char_u32_injective(t[k], '\t');
                            } else if code == 10 {
                                lemma_char_u32_injective(t[k], '\n');
                            } else if code == 12 {
                                lemma_char_u32_injective(t[k], '\u{c}');
                            } else if code == 13 {
                                lemma_char_u32_injective(t[k], '\r');
                            }
                        }
                    }
                }
                // only the escapes the serializer cannot write as a named
                // escape are accepted in this form
                if code >= 32 || code == 8 || code == 9 || code == 10 || code == 12 || code == 13 {
                    return None;
                }
                decoded = (code as u8) as char;
                used = 6;
                proof {
                    assert(hex_digit((decoded as u32) as int / 16) == h);
                    assert(hex_digit((decoded as u32) as int % 16) == l);
                }
            } else {
                proof {
                    if active {
                        // the character after the backslash always names a
                        // valid escape
                        assert(false);
                    }
                }
                return None;
            }
            proof {
                if active {
                    assert(decoded == t[k]) by {
                        if escape_char(t[k]).len() == 6 {
                            assert((decoded as u32) == (t[k] as u32)) by {
                                assert((((t[k] as u32) as u8) as char) as u32 == (t[k] as u32));
                            }
                            lemma_char_u32_injective(decoded, t[k]);
                        }
                    }
                    assert(t.take(k + 1) =~= t.take(k).push(t[k]));
                }
                assert(cs@.subrange(pos + 1, (cur + used) as int) =~= consumed_before
                    + escape_char(decoded));
                assert(escaped_chars(out@.push(decoded)) == escaped_chars(out@) + escape_char(
                    decoded,
                )) by {
                    assert(out@.push(decoded).drop_last() =~= out@);
                }
            }
            out.push(decoded);
            cur += used;
        } else {
            proof {
                if active {
                    let g = escape_char(t[k]);
                    assert(g.len() == 1) by {
                        if g.len() >= 2 {
                            assert(cs@[cur as int] == g[0]);
                        }
                    }
                    assert(c == t[k]);
                    assert((c as u32) >= 32);
                    assert(t.take(k + 1) =~= t.take(k).push(t[k]));
                }
            }
            if (c as u32) < 32 {
                return None;
            }
            proof {
                assert(escape_char(c) =~= seq![c]);
                assert(cs@.subrange(pos + 1, cur + 1) =~= consumed_before + escape_char(c));
                assert(escaped_chars(out@.push(c)) == escaped_chars(out@) + escape_char(c)) by {
                    assert(out@.push(c).drop_last() =~= out@);
                }
            }
            out.push(c);
            cur += 1;
        }
    }
    proof {
        if active {
            lemma_string_at_step(cs@, pos as int, t, out@, cur as int);
            assert(cur <= pos + 1 + escaped_chars(t).len());
            assert(pos + 2 + escaped_chars(t).len() <= n);
            assert(false);
        }
    }
    None
}

/// The layout facts one list-element step needs: the next element's
/// serialization stands at the cursor, and the proper separator follows it.
#[verifier::rlimit(100)]
proof fn lemma_list_at_step(cs: Seq<char>, pos: int, ws: Seq<ValueModel>, k: int, cur: int)
    requires
        wf_list(ws),
        value_at(cs, pos, ValueModel::List(ws)),
        0 <= k < ws.len(),
        0 <= pos < cur <= cs.len(),
        k == 0 ==> cur == pos + 1,
        k > 0 ==> cs.subrange(pos + 1, cur) == json_of_list(ws.take(k)) + seq![','],
    ensures
        wf_value(ws[k]),
        value_at(cs, cur, ws[k]),
        cur + json_of(ws[k]).len() < cs.len(),
        cs[cur + json_of(ws[k]).len()] == (if k == ws.len() - 1 {
            ']'
        } else {
            ','
        }),
        k < ws.len() - 1 ==> cs.subrange(pos + 1, cur + json_of(ws[k]).len() + 1)
            == json_of_list(ws.take(k + 1)) + seq![','],
    decreases 0int,
{
    lemma_wf_list_index(ws, k);
    let jt = json_of(ValueModel::List(ws));
    assert(jt == seq!['['] + json_of_list(ws) + seq![']']);
    assert forall|j: int| 0 <= j < jt.len() implies cs[pos + j] == jt[j] by {
        assert(cs.subrange(pos, pos + jt.len() as int)[j] == cs[pos + j]);
    }
    let b = json_of(ws[k]);
    let before: Seq<char> = if k == 0 {
        Seq::<char>::empty()
    } else {
        json_of_list(ws.take(k)) + seq![',']
    };
    let after: Seq<char> = if k == ws.len() - 1 {
        Seq::<char>::empty()
    } else {
        seq![','] + json_of_list(ws.skip(k + 1))
    };
    assert(json_of_list(ws) == before + b + after) by {
        if k == 0 {
            lemma_jl_front(ws);
            if ws.len() == 1 {
                assert(json_of_list(ws) =~= before + b + after);
            } else {
                assert(ws.drop_first() =~= ws.skip(1));
                assert(json_of_list(ws) =~= before + b + after);
            }
        } else {
            lemma_jl_split(ws, k);
            lemma_jl_front(ws.skip(k));
            assert(ws.skip(k)[0] == ws[k]);
            if k == ws.len() - 1 {
                assert(ws.skip(k).len() == 1);
                assert(json_of_list(ws.skip(k)) == b);
                assert(json_of_list(ws) =~= before + b + after);
            } else {
                assert(ws.skip(k).drop_first() =~= ws.skip(k + 1));
                assert(json_of_list(ws.skip(k)) == b + (seq![','] + json_of_list(ws.skip(k + 1))));
                assert(json_of_list(ws) =~= before + b + after);
            }
        }
    }
    assert(cur == pos + 1 + before.len()) by {
        if k > 0 {
            assert(cs.subrange(pos + 1, cur).len() == cur - (pos + 1));
        }
    }
    assert forall|i: int| 0 <= i < b.len() implies cs[cur + i] == b[i] by {
        assert(cs[cur + i] == jt[1 + before.len() + i]);
        assert(jt[1 + before.len() + i] == json_of_list(ws)[before.len() + i]);
        assert(json_of_list(ws)[before.len() + i] == b[i]);
    }
    assert(cs.subrange(cur, cur + b.len() as int) =~= b);
    assert(cur + b.len() < cs.len());
    assert(cs[cur + b.len() as int] == jt[1 + before.len() + b.len() as int]);
    if k == ws.len() - 1 {
        assert(jt[1 + before.len() + b.len() as int] == ']');
    } else {
        assert(jt[1 + before.len() + b.len() as int] == json_of_list(ws)[before.len() + b.len() as int]);
        assert(json_of_list(ws)[before.len() + b.len() as int] == after[0]);
    }
    assert(value_at(cs, cur, ws[k])) by {
        if ws[k] is Num {
            assert(!is_number_char(',') && !is_number_char(']'));
        }
    }
    if k < ws.len() - 1 {
        assert(json_of_list(ws.take(k + 1)) == before + b) by {
            if k == 0 {
                assert(ws.take(1).len() == 1);
                assert(ws.take(1)[0] == ws[0]);
                assert(json_of_list(ws.take(1)) == json_of(ws[0]));
                assert(json_of_list(ws.take(1)) =~= before + b);
            } else {
                lemma_jl_split(ws.take(k + 1), k);
                assert(ws.take(k + 1).take(k) =~= ws.take(k));
                assert(ws.take(k + 1).skip(k).len() == 1);
                assert(ws.take(k + 1).skip(k)[0] == ws[k]);
                assert(json_of_list(ws.take(k + 1).skip(k)) == b);
                assert(json_of_list(ws.take(k + 1)) =~= before + b);
            }
        }
        assert(cs.subrange(pos + 1, cur + b.len() + 1) =~= json_of_list(ws.take(k + 1))
            + seq![',']);
    }
}

/// The layout facts one field step needs: the next field's quoted key,
/// colon and value stand at the cursor, and the proper separator follows.
#[verifier::rlimit(100)]
proof fn lemma_fields_at_step(
    cs: Seq<char>,
    pos: int,
    fs: Seq<(Seq<char>, ValueModel)>,
    k: int,
    cur: int,
)
    requires
        wf_fields(fs),
        value_at(cs, pos, ValueModel::Obj(fs)),
        0 <= k < fs.len(),
        0 <= pos < cur <= cs.len(),
        k == 0 ==> cur == pos + 1,
        k > 0 ==> cs.subrange(pos + 1, cur) == json_of_fields(fs.take(k)) + seq![','],
    ensures
        wf_value(fs[k].1),
        cur < cs.len(),
        cs[cur] == '"',
        string_at(cs, cur, fs[k].0),
        cur + 2 + escaped_chars(fs[k].0).len() < cs.len(),
        cs[cur + 2 + escaped_chars(fs[k].0).len()] == ':',
        value_at(cs, cur + 3 + escaped_chars(fs[k].0).len(), fs[k].1),
        cur + 3 + escaped_chars(fs[k].0).len() + json_of(fs[k].1).len() < cs.len(),
        cs[cur + 3 + escaped_chars(fs[k].0).len() + json_of(fs[k].1).len()] == (if k == fs.len()
            - 1 {
            '}'
        } else {
            ','
        }),
        k < fs.len() - 1 ==> cs.subrange(
            pos + 1,
            cur + 3 + escaped_chars(fs[k].0).len() + json_of(fs[k].1).len() + 1,
        ) == json_of_fields(fs.take(k + 1)) + seq![','],
    decreases 0int,
{
    lemma_wf_fields_index(fs, k);
    let jt = json_of(ValueModel::Obj(fs));
    assert(jt == seq!['{'] + json_of_fields(fs) + seq!['}']);
    assert forall|j: int| 0 <= j < jt.len() implies cs[pos + j] == jt[j] by {
        assert(cs.subrange(pos, pos + jt.len() as int)[j] == cs[pos + j]);
    }
    let b = json_of_field(fs[k]);
    assert(b == seq!['"'] + escaped_chars(fs[k].0) + seq!['"', ':'] + json_of(fs[k].1));
    assert(b.len() == 3 + escaped_chars(fs[k].0).len() + json_of(fs[k].1).len());
    let before: Seq<char> = if k == 0 {
        Seq::<char>::empty()
    } else {
        json_of_fields(fs.take(k)) + seq![',']
    };
    let after: Seq<char> = if k == fs.len() - 1 {
        Seq::<char>::empty()
    } else {
        seq![','] + json_of_fields(fs.skip(k + 1))
    };
    assert(json_of_fields(fs) == before + b + after) by {
        if k == 0 {
            lemma_jf_front(fs);
            if fs.len() == 1 {
                assert(json_of_fields(fs) =~= before + b + after);
            } else {
                assert(fs.drop_first() =~= fs.skip(1));
                assert(json_of_fields(fs) =~= before + b + after);
            }
        } else {
            lemma_jf_split(fs, k);
            lemma_jf_front(fs.skip(k));
            assert(fs.skip(k)[0] == fs[k]);
            if k == fs.len() - 1 {
                assert(fs.skip(k).len() == 1);
                assert(json_of_fields(fs.skip(k)) == b);
                assert(json_of_fields(fs) =~= before + b + after);
            } else {
                assert(fs.skip(k).drop_first() =~= fs.skip(k + 1));
                assert(json_of_fields(fs.skip(k)) == b + (seq![','] + json_of_fields(
                    fs.skip(k + 1),
                )));
                assert(json_of_fields(fs) =~= before + b + after);
            }
        }
    }
    assert(cur == pos + 1 + before.len()) by {
        if k > 0 {
            assert(cs.subrange(pos + 1, cur).len() == cur - (pos + 1));
        }
    }
    assert forall|i: int| 0 <= i < b.len() implies cs[cur + i] == b[i] by {
        assert(cs[cur + i] == jt[1 + before.len() + i]);
        assert(jt[1 + before.len() + i] == json_of_fields(fs)[before.len() + i]);
        assert(json_of_fields(fs)[before.len() + i] == b[i]);
    }
    let el = escaped_chars(fs[k].0).len() as int;
    let vl = json_of(fs[k].1).len() as int;
    assert(cs[cur] == b[0]) by {
        assert(cs[cur + 0] == b[0]);
    }
    assert(b.take(2 + el) =~= seq!['"'] + escaped_chars(fs[k].0) + seq!['"']);
    assert forall|i: int| 0 <= i < 2 + el implies #[trigger] cs.subrange(cur, cur + 2 + el)[i]
        == b.take(2 + el)[i] by {
        assert(cs.subrange(cur, cur + 2 + el)[i] == cs[cur + i]);
        assert(cs[cur + i] == b[i]);
    }
    assert(cs.subrange(cur, cur + 2 + el) =~= b.take(2 + el));
    assert(string_at(cs, cur, fs[k].0));
    assert(cs[cur + 2 + el] == b[2 + el]);
    assert(b[2 + el] == ':');
    assert(b.skip(3 + el) =~= json_of(fs[k].1));
    assert forall|i: int| 0 <= i < vl implies #[trigger] cs.subrange(
        cur + 3 + el,
        cur + 3 + el + vl,
    )[i] == b.skip(3 + el)[i] by {
        assert(cs.subrange(cur + 3 + el, cur + 3 + el + vl)[i] == cs[cur + (3 + el + i)]);
        assert(cs[cur + (3 + el + i)] == b[3 + el + i]);
    }
    assert(cs.subrange(cur + 3 + el, cur + 3 + el + vl) =~= json_of(fs[k].1));
    assert(cs[cur + 3 + el + vl] == jt[1 + before.len() + b.len() as int]);
    if k == fs.len() - 1 {
        assert(jt[1 + before.len() + b.len() as int] == '}');
    } else {
        assert(jt[1 + before.len() + b.len() as int] == json_of_fields(fs)[before.len() + b.len() as int]);
        assert(json_of_fields(fs)[before.len() + b.len() as int] == after[0]);
    }
    assert(value_at(cs, cur + 3 + el, fs[k].1)) by {
        if fs[k].1 is Num {
            assert(!is_number_char(',') && !is_number_char('}'));
        }
    }
    if k < fs.len() - 1 {
        assert(json_of_fields(fs.take(k + 1)) == before + b) by {
            if k == 0 {
                assert(fs.take(1).len() == 1);
                assert(fs.take(1)[0] == fs[0]);
                assert(json_of_fields(fs.take(1)) == json_of_field(fs[0]));
                assert(json_of_fields(fs.take(1)) =~= before + b);
            } else {
                lemma_jf_split(fs.take(k + 1), k);
                assert(fs.take(k + 1).take(k) =~= fs.take(k));
                assert(fs.take(k + 1).skip(k).len() == 1);
                assert(fs.take(k + 1).skip(k)[0] == fs[k]);
                assert(json_of_fields(fs.take(k + 1).skip(k)) == b);
                assert(json_of_fields(fs.take(k + 1)) =~= before + b);
            }
        }
        assert(cs.subrange(pos + 1, cur + 3 + el + vl + 1) =~= json_of_fields(fs.take(k + 1))
            + seq![',']);
    }
}

/// Parses one JSON value starting at `pos`. Only the serializer's own
/// canonical form is accepted: whatever parses serializes back to exactly
/// the consumed text.
#[verifier::rlimit(100)]
fn parse_value(cs: &Vec<char>, pos: usize, hint: Ghost<Option<ValueModel>>) -> (r: Option<
    (DynamicValue, usize),
>)
    requires
        pos <= cs@.len(),
    ensures
        r matches Option::Some(p) ==> pos < p.1 <= cs@.len() && cs@.subrange(
            pos as int,
            p.1 as int,
        ) == json_of(p.0@) && wf_value(p.0@),
        r matches Option::Some(p) ==> (p.0 is Num ==> p.1 == cs@.len() || !is_number_char(
            cs@[p.1 as int],
        )),
        (hint@ matches Option::Some(w) && wf_value(w) && value_at(cs@, pos as int, w)) ==> r
            is Some,
    decreases cs@.len() - pos,
{
    let ghost w: ValueModel = match hint@ {
        Option::Some(w0) => w0,
        Option::None => ValueModel::Null,
    };
    let ghost active = hint@ is Some && wf_value(w) && value_at(cs@, pos as int, w);
    proof {
        if active {
            lemma_json_first_char(w);
            assert forall|j: int| 0 <= j < json_of(w).len() implies #[trigger] cs@[pos + j]
                == json_of(w)[j] by {
                assert(cs@.subrange(pos as int, pos + json_of(w).len() as int)[j] == cs@[pos + j]);
            }
            assert(cs@[pos as int] == json_of(w)[0]);
        }
    }
    let n = cs.len();
    if pos >= n {
        proof {
            if active {
                assert(false);
            }
        }
        return None;
    }
    let c = cs[pos];
    if c == 'n' {
        proof {
            if active {
                reveal_strlit("null");
                assert(w is Null);
                assert(json_of(w) == "null"@);
                assert(n - pos >= 4);
                assert(cs@[pos + 1] == 'u' && cs@[pos + 2] == 'l' && cs@[pos + 3] == 'l');
            }
        }
        if n - pos >= 4 && cs[pos + 1] == 'u' && cs[pos + 2] == 'l' && cs[pos + 3] == 'l' {
            proof {
                reveal_strlit("null");
                assert(cs@.subrange(pos as int, pos + 4) =~= "null"@);
            }
            return Some((DynamicValue::Null, pos + 4));
        }
        proof {
            if active {
                assert(false);
            }
        }
        return None;
    }
    if c == 't' {
        proof {
            if active {
                reveal_strlit("true");
                assert(w == ValueModel::Bool(true));
                assert(json_of(w) == "true"@);
                assert(n - pos >= 4);
                assert(cs@[pos + 1] == 'r' && cs@[pos + 2] == 'u' && cs@[pos + 3] == 'e');
            }
        }
        if n - pos >= 4 && cs[pos + 1] == 'r' && cs[pos + 2] == 'u' && cs[pos + 3] == 'e' {
            proof {
                reveal_strlit("true");
                assert(cs@.subrange(pos as int, pos + 4) =~= "true"@);
            }
            return Some((DynamicValue::Bool(true), pos + 4));
        }
        proof {
            if active {
                assert(false);
            }
        }
        return None;
    }
    if c == 'f' {
        proof {
            if active {
                reveal_strlit("false");
                assert(w == ValueModel::Bool(false));
                assert(json_of(w) == "false"@);
                assert(n - pos >= 5);
                assert(cs@[pos + 1] == 'a' && cs@[pos + 2] == 'l' && cs@[pos + 3] == 's' && cs@[
                    pos + 4] == 'e');
            }
        }
        if n - pos >= 5 && cs[pos + 1] == 'a' && cs[pos + 2] == 'l' && cs[pos + 3] == 's' && cs[pos
            + 4] == 'e' {
            proof {
                reveal_strlit("false");
                assert(cs@.subrange(pos as int, pos + 5) =~= "false"@);
            }
            return Some((DynamicValue::Bool(false), pos + 5));
        }
        proof {
            if active {
                assert(false);
            }
        }
        return None;
    }
    if ('0' <= c && c <= '9') || c == '-' {
        let mut cur: usize = pos + 1;
        while cur < n && num_char(cs[cur])
            invariant
                n == cs@.len(),
                pos < cur <= n,
                forall|k: int| pos + 1 <= k < cur ==> is_number_char(#[trigger] cs@[k]),
            decreases n - cur,
        {
            cur += 1;
        }
        let mut lit: Vec<char> = Vec::new();
        let mut k: usize = pos;
        while k < cur
            invariant
                pos <= k <= cur <= n,
                n == cs@.len(),
                lit@ == cs@.subrange(pos as int, k as int),
            decreases cur - k,
        {
            lit.push(cs[k]);
            proof {
                assert(cs@.subrange(pos as int, k + 1) =~= cs@.subrange(pos as int, k as int).push(
                    cs@[k as int],
                ));
            }
            k += 1;
        }
        let s = crate::names::chars_to_string(&lit);
        proof {
            assert(s@[0] == cs@[pos as int]);
            assert(forall|k: int| 1 <= k < s@.len() ==> #[trigger] s@[k] == cs@[pos + k]);
            assert(wf_value(value_model(DynamicValue::Num(s))));
        }
        return Some((DynamicValue::Num(s), cur));
    }
    if c == '"' {
        let ghost sh: Option<Seq<char>> = match hint@ {
            Option::Some(ValueModel::Str(t0)) => Option::Some(t0),
            _ => Option::None,
        };
        proof {
            if active {
                assert(w is Str);
                let t0 = w->Str_0;
                assert(json_of(w) == seq!['"'] + escaped_chars(t0) + seq!['"']);
                assert(cs@.subrange(pos as int, pos + 2 + escaped_chars(t0).len()) == json_of(w));
                assert(string_at(cs@, pos as int, t0));
            }
        }
        match parse_string(cs, pos, Ghost(sh)) {
            Some((s, end)) => {
                return Some((DynamicValue::Str(s), end));
            },
            None => {
                proof {
                    if active {
                        assert(false);
                    }
                }
                return None;
            },
        }
    }
    if c == '[' {
        let ghost ws: Seq<ValueModel> = match w {
            ValueModel::List(ws0) => ws0,
            _ => Seq::empty(),
        };
        proof {
            if active {
                assert(w == ValueModel::List(ws));
            }
        }
        if pos + 1 < n && cs[pos + 1] == ']' {
            let v = DynamicValue::List(Vec::new());
            proof {
                assert(list_models(Seq::<DynamicValue>::empty()) =~= Seq::<ValueModel>::empty());
                assert(cs@.subrange(pos as int, pos + 2) =~= json_of(v@));
                assert(wf_value(v@));
            }
            return Some((v, pos + 2));
        }
        proof {
            if active && ws.len() == 0 {
                assert(json_of_list(ws) =~= Seq::<char>::empty());
                assert(json_of(w).len() == 2);
                assert(cs@[pos + 1] == json_of(w)[1]);
                assert(false);
            }
        }
        let mut elems: Vec<DynamicValue> = Vec::new();
        let mut cur: usize = pos + 1;
        loop
            invariant
                n == cs@.len(),
                pos < cur <= n,
                cs@[pos as int] == '[',
                elems@.len() == 0 ==> cur == pos + 1,
                wf_list(list_models(elems@)),
                elems@.len() > 0 ==> cs@.subrange(pos + 1, cur as int) == json_of_list(
                    list_models(elems@),
                ) + seq![','],
                hint@ matches Option::Some(w0) ==> w0 == w,
                active == (hint@ is Some && wf_value(w) && value_at(cs@, pos as int, w)),
                active ==> w == ValueModel::List(ws),
                active ==> list_models(elems@) == ws.take(elems@.len() as int) && elems@.len()
                    < ws.len(),
            decreases n - cur,
        {
            let ghost elems_before = elems@;
            let ghost k = elems@.len() as int;
            proof {
                if active {
                    lemma_list_models_len(elems_before);
                    lemma_list_at_step(cs@, pos as int, ws, k, cur as int);
                }
            }
            let ghost eh: Option<ValueModel> = if active {
                Option::Some(ws[k])
            } else {
                Option::None
            };
            let (v, end) = match parse_value(cs, cur, Ghost(eh)) {
                Some(p) => p,
                None => {
                    proof {
                        if active {
                            assert(false);
                        }
                    }
                    return None;
                },
            };
            proof {
                if active {
                    let b = json_of(ws[k]);
                    assert(cs@.subrange(cur as int, cur + b.len() as int) == b);
                    assert(cs@.skip(cur as int) =~= json_of(v@) + cs@.skip(end as int));
                    assert(cs@.skip(cur as int) =~= b + cs@.skip(cur + b.len() as int));
                    if v@ is Num && end < n {
                        assert(cs@.skip(end as int)[0] == cs@[end as int]);
                    }
                    assert(cs@.skip(cur + b.len() as int)[0] == cs@[cur + b.len() as int]);
                    assert(!is_number_char(',') && !is_number_char(']'));
                    lemma_json_prefix(
                        v@,
                        ws[k],
                        cs@.skip(end as int),
                        cs@.skip(cur + b.len() as int),
                    );
                    assert(v@ == ws[k]);
                    assert(cs@.skip(end as int).len() == cs@.skip(cur + b.len() as int).len());
                    assert(end == cur + b.len());
                }
            }
            proof {
                lemma_list_models_len(elems_before);
                assert(elems_before.push(v).drop_last() =~= elems_before);
                let ms1 = list_models(elems_before.push(v));
                assert(ms1.drop_last() =~= list_models(elems_before));
                assert(ms1.last() == value_model(v));
                if elems_before.len() == 0 {
                    assert(json_of_list(ms1) == json_of(v@));
                    assert(cs@.subrange(pos + 1, end as int) =~= json_of_list(ms1));
                } else {
                    assert(json_of_list(ms1) == json_of_list(list_models(elems_before))
                        + seq![','] + json_of(v@));
                    assert(cs@.subrange(pos + 1, end as int) =~= json_of_list(ms1));
                }
                assert(wf_list(ms1));
                if active {
                    assert(ms1 =~= ws.take(k + 1));
                }
            }
            elems.push(v);
            if end < n {
                let d = cs[end];
                if d == ']' {
                    let out = DynamicValue::List(elems);
                    proof {
                        assert(cs@.subrange(pos as int, end + 1) =~= json_of(out@));
                    }
                    return Some((out, end + 1));
                }
                if d == ',' {
                    proof {
                        assert(cs@.subrange(pos + 1, end + 1) =~= cs@.subrange(
                            pos + 1,
                            end as int,
                        ) + seq![',']);
                        if active {
                            assert(k != ws.len() - 1);
                        }
                    }
                    cur = end + 1;
                } else {
                    proof {
                        if active {
                            assert(false);
                        }
                    }
                    return None;
                }
            } else {
                proof {
                    if active {
                        assert(false);
                    }
                }
                return None;
            }
        }
    }
    if c == '{' {
        let ghost fs: Seq<(Seq<char>, ValueModel)> = match w {
            ValueModel::Obj(fs0) => fs0,
            _ => Seq::empty(),
        };
        proof {
            if active {
                assert(w == ValueModel::Obj(fs));
            }
        }
        if pos + 1 < n && cs[pos + 1] == '}' {
            let v = DynamicValue::Obj(Vec::new());
            proof {
                assert(field_models(Seq::<(String, DynamicValue)>::empty()) =~= Seq::<
                    (Seq<char>, ValueModel),
                >::empty());
                assert(cs@.subrange(pos as int, pos + 2) =~= json_of(v@));
                assert(wf_value(v@));
            }
            return Some((v, pos + 2));
        }
        proof {
            if active && fs.len() == 0 {
                assert(json_of_fields(fs) =~= Seq::<char>::empty());
                assert(json_of(w).len() == 2);
                assert(cs@[pos + 1] == json_of(w)[1]);
                assert(false);
            }
        }
        let mut fields: Vec<(String, DynamicValue)> = Vec::new();
        let mut cur: usize = pos + 1;
        loop
            invariant
                n == cs@.len(),
                pos < cur <= n,
                cs@[pos as int] == '{',
                fields@.len() == 0 ==> cur == pos + 1,
                wf_fields(field_models(fields@)),
                fields@.len() > 0 ==> cs@.subrange(pos + 1, cur as int) == json_of_fields(
                    field_models(fields@),
                ) + seq![','],
                hint@ matches Option::Some(w0) ==> w0 == w,
                active == (hint@ is Some && wf_value(w) && value_at(cs@, pos as int, w)),
                active ==> w == ValueModel::Obj(fs),
                active ==> field_models(fields@) == fs.take(fields@.len() as int)
                    && fields@.len() < fs.len(),
            decreases n - cur,
        {
            let ghost fields_before = fields@;
            let ghost k = fields@.len() as int;
            proof {
                if active {
                    lemma_field_models_len(fields_before);
                    lemma_fields_at_step(cs@, pos as int, fs, k, cur as int);
                }
            }
            if !(cur < n && cs[cur] == '"') {
                proof {
                    if active {
                        assert(false);
                    }
                }
                return None;
            }
            let ghost kh: Option<Seq<char>> = if active {
                Option::Some(fs[k].0)
            } else {
                Option::None
            };
            let (name, name_end) = match parse_string(cs, cur, Ghost(kh)) {
                Some(p) => p,
                None => {
                    proof {
                        if active {
                            assert(false);
                        }
                    }
                    return None;
                },
            };
            proof {
                if active {
                    let el = escaped_chars(fs[k].0).len() as int;
                    let q1 = seq!['"'] + escaped_chars(name@) + seq!['"'];
                    assert(q1.len() == name_end - cur);
                    assert forall|i2: int| 0 <= i2 < name_end - cur implies #[trigger] cs@[cur
                        + i2] == q1[i2] by {
                        assert(cs@.subrange(cur as int, name_end as int)[i2] == cs@[cur + i2]);
                    }
                    let q2 = seq!['"'] + escaped_chars(fs[k].0) + seq!['"'];
                    assert(q2.len() == 2 + el);
                    assert forall|i2: int| 0 <= i2 < 2 + el implies #[trigger] cs@[cur + i2]
                        == q2[i2] by {
                        assert(cs@.subrange(cur as int, cur + 2 + el)[i2] == cs@[cur + i2]);
                    }
                    assert(escaped_chars(name@).len() == name_end - cur - 2);
                    let rhs1 = escaped_chars(name@) + (seq!['"'] + cs@.skip(name_end as int));
                    assert forall|i2: int| 0 <= i2 < cs@.skip(cur + 1).len() implies cs@.skip(
                        cur + 1,
                    )[i2] == rhs1[i2] by {
                        assert(cs@.skip(cur + 1)[i2] == cs@[cur + 1 + i2]);
                        if i2 < name_end - cur - 1 {
                            assert(cs@[cur + (1 + i2)] == q1[1 + i2]);
                        } else {
                            assert(rhs1[i2] == cs@.skip(name_end as int)[i2 - (name_end - cur
                                - 1)]);
                            assert(cs@.skip(name_end as int)[i2 - (name_end - cur - 1)] == cs@[
                                name_end + (i2 - (name_end - cur - 1))]);
                        }
                    }
                    assert(cs@.skip(cur + 1) =~= rhs1);
                    let rhs2 = escaped_chars(fs[k].0) + (seq!['"'] + cs@.skip(cur + 2 + el));
                    assert forall|i2: int| 0 <= i2 < cs@.skip(cur + 1).len() implies cs@.skip(
                        cur + 1,
                    )[i2] == rhs2[i2] by {
                        assert(cs@.skip(cur + 1)[i2] == cs@[cur + 1 + i2]);
                        if i2 < 1 + el {
                            assert(cs@[cur + (1 + i2)] == q2[1 + i2]);
                        } else {
                            assert(rhs2[i2] == cs@.skip(cur + 2 + el)[i2 - (1 + el)]);
                            assert(cs@.skip(cur + 2 + el)[i2 - (1 + el)] == cs@[cur + 2 + el + (i2
                                - (1 + el))]);
                        }
                    }
                    assert(cs@.skip(cur + 1) =~= rhs2);
                    lemma_escaped_prefix(
                        name@,
                        fs[k].0,
                        seq!['"'] + cs@.skip(name_end as int),
                        seq!['"'] + cs@.skip(cur + 2 + el),
                    );
                    assert(name@ == fs[k].0);
                    assert((seq!['"'] + cs@.skip(name_end as int)).len() == (seq!['"'] + cs@.skip(
                        cur + 2 + el,
                    )).len());
                    assert(name_end == cur + 2 + el);
                }
            }
            if !(name_end < n && cs[name_end] == ':') {
                proof {
                    if active {
                        assert(false);
                    }
                }
                return None;
            }
            let ghost vh: Option<ValueModel> = if active {
                Option::Some(fs[k].1)
            } else {
                Option::None
            };
            let (v, end) = match parse_value(cs, name_end + 1, Ghost(vh)) {
                Some(p) => p,
                None => {
                    proof {
                        if active {
                            assert(false);
                        }
                    }
                    return None;
                },
            };
            proof {
                if active {
                    let el = escaped_chars(fs[k].0).len() as int;
                    let b = json_of(fs[k].1);
                    assert(cs@.subrange(name_end + 1, name_end + 1 + b.len() as int) == b) by {
                        assert(cs@.subrange(cur + 3 + el, cur + 3 + el + b.len() as int) == b);
                    }
                    assert(cs@.skip(name_end + 1) =~= json_of(v@) + cs@.skip(end as int));
                    assert(cs@.skip(name_end + 1) =~= b + cs@.skip(name_end + 1 + b.len() as int));
                    if v@ is Num && end < n {
                        assert(cs@.skip(end as int)[0] == cs@[end as int]);
                    }
                    assert(cs@.skip(name_end + 1 + b.len() as int)[0] == cs@[name_end + 1
                        + b.len() as int]);
                    assert(!is_number_char(',') && !is_number_char('}'));
                    lemma_json_prefix(
                        v@,
                        fs[k].1,
                        cs@.skip(end as int),
                        cs@.skip(name_end + 1 + b.len() as int),
                    );
                    assert(v@ == fs[k].1);
                    assert(cs@.skip(end as int).len() == cs@.skip(
                        name_end + 1 + b.len() as int,
                    ).len());
                    assert(end == name_end + 1 + b.len());
                }
            }
            proof {
                lemma_field_models_len(fields_before);
                assert(fields_before.push((name, v)).drop_last() =~= fields_before);
                let ms1 = field_models(fields_before.push((name, v)));
                assert(ms1.drop_last() =~= field_models(fields_before));
                assert(ms1.last() == (name@, value_model(v)));
                assert(cs@.subrange(cur as int, name_end as int) == seq!['"'] + escaped_chars(
                    name@,
                ) + seq!['"']);
                assert(cs@.subrange(name_end + 1, end as int) == json_of(value_model(v)));
                assert(cs@.subrange(cur as int, end as int) =~= cs@.subrange(
                    cur as int,
                    name_end as int,
                ) + seq![':'] + cs@.subrange(name_end + 1, end as int));
                assert(json_of_field((name@, value_model(v))) =~= cs@.subrange(
                    cur as int,
                    end as int,
                ));
                if fields_before.len() == 0 {
                    assert(json_of_fields(ms1) == json_of_field(ms1[0]));
                    assert(cs@.subrange(pos + 1, end as int) =~= json_of_fields(ms1));
                } else {
                    assert(json_of_fields(ms1) == json_of_fields(field_models(fields_before))
                        + seq![','] + json_of_field(ms1.last()));
                    assert(cs@.subrange(pos + 1, end as int) =~= json_of_fields(ms1));
                }
                assert(wf_fields(ms1));
                if active {
                    assert(ms1 =~= fs.take(k + 1));
                }
            }
            fields.push((name, v));
            if end < n {
                let d = cs[end];
                if d == '}' {
                    let out = DynamicValue::Obj(fields);
                    proof {
                        assert(cs@.subrange(pos as int, end + 1) =~= json_of(out@));
                    }
                    return Some((out, end + 1));
                }
                if d == ',' {
                    proof {
                        assert(cs@.subrange(pos + 1, end + 1) =~= cs@.subrange(
                            pos + 1,
                            end as int,
                        ) + seq![',']);
                        if active {
                            assert(k != fs.len() - 1);
                        }
                    }
                    cur = end + 1;
                } else {
                    proof {
                        if active {
                            assert(false);
                        }
                    }
                    return None;
                }
            } else {
                proof {
                    if active {
                        assert(false);
                    }
                }
                return None;
            }
        }
    }
    proof {
        if active {
            assert(false);
        }
    }
    None
}

/// Parses JSON text in the serializer's canonical form. The contract is
/// exact in both directions: on success the returned value is well-formed
/// and serializing it reproduces the input character for character, and
/// whenever the input is the serialization of some well-formed value the
/// parse succeeds. Together with `lemma_round_trip`, parsing the
/// serialization of any well-formed value returns exactly that value.
pub fn parse_json(s: &str) -> (r: Option<DynamicValue>)
    ensures
        r matches Option::Some(v) ==> s@ == json_of(v@) && wf_value(v@),
        (exists|w: ValueModel| wf_value(w) && s@ == json_of(w)) ==> r is Some,
{
    let ghost wopt: Option<ValueModel> = if exists|w: ValueModel| wf_value(w) && s@ == json_of(w) {
        Option::Some(choose|w: ValueModel| wf_value(w) && s@ == json_of(w))
    } else {
        Option::None
    };
    let cs = string_chars(s);
    proof {
        match wopt {
            Option::Some(w) => {
                assert(cs@.subrange(0, json_of(w).len() as int) =~= json_of(w));
                assert(value_at(cs@, 0, w));
            },
            Option::None => {},
        }
    }
    match parse_value(&cs, 0, Ghost(wopt)) {
        Some((v, end)) => {
            proof {
                assert(cs@.subrange(0, end as int) == json_of(v@));
                match wopt {
                    Option::Some(w) => {
                        // the parsed prefix and the witness's whole text
                        // spell the same string, so they coincide and the
                        // parse consumed everything
                        assert(cs@.skip(0) =~= json_of(v@) + cs@.skip(end as int));
                        assert(cs@.skip(0) =~= json_of(w) + Seq::<char>::empty());
                        if v@ is Num && end < cs@.len() {
                            assert(cs@.skip(end as int)[0] == cs@[end as int]);
                        }
                        lemma_json_prefix(v@, w, cs@.skip(end as int), Seq::<char>::empty());
                        assert(cs@.skip(end as int).len() == 0);
                        assert(end == cs@.len());
                    },
                    Option::None => {},
                }
            }
            if end == cs.len() {
                proof {
                    assert(cs@.subrange(0, end as int) =~= cs@);
                }
                Some(v)
            } else {
                None
            }
        },
        None => None,
    }
}


pub proof fn lemma_list_models_index(vs: Seq<DynamicValue>, i: int)
    requires
        0 <= i < vs.len(),
    ensures
        list_models(vs)[i] == value_model(vs[i]),
    decreases vs.len(),
{
    lemma_list_models_len(vs);
    if i == vs.len() - 1 {
    } else {
        lemma_list_models_len(vs.drop_last());
        lemma_list_models_index(vs.drop_last(), i);
    }
}

pub proof fn lemma_field_models_index(fs: Seq<(String, DynamicValue)>, i: int)
    requires
        0 <= i < fs.len(),
    ensures
        field_models(fs)[i] == (fs[i].0@, value_model(fs[i].1)),
    decreases fs.len(),
{
    lemma_field_models_len(fs);
    if i == fs.len() - 1 {
    } else {
        lemma_field_models_len(fs.drop_last());
        lemma_field_models_index(fs.drop_last(), i);
    }
}

pub proof fn lemma_list_models_add(a: Seq<DynamicValue>, b: Seq<DynamicValue>)
    ensures
        list_models(a + b) == list_models(a) + list_models(b),
{
    lemma_list_models_len(a);
    lemma_list_models_len(b);
    lemma_list_models_len(a + b);
    assert forall|i: int| 0 <= i < (a + b).len() implies list_models(a + b)[i] == (list_models(a)
        + list_models(b))[i] by {
        lemma_list_models_index(a + b, i);
        if i < a.len() {
            lemma_list_models_index(a, i);
        } else {
            lemma_list_models_index(b, i - a.len());
        }
    }
    assert(list_models(a + b) =~= list_models(a) + list_models(b));
}

pub open spec fn digit_char(d: int) -> char {
    ((48 + d) as u8) as char
}

/// The decimal digits of a nonnegative number, most significant first.
pub open spec fn dec_digits(n: nat) -> Seq<char>
    decreases n,
{
    if n < 10 {
        seq![digit_char(n as int)]
    } else {
        dec_digits(n / 10).push(digit_char((n % 10) as int))
    }
}

/// The decimal text of an integer, a leading minus sign for a negative one.
pub open spec fn dec_of(x: int) -> Seq<char> {
    if x < 0 {
        seq!['-'] + dec_digits((-x) as nat)
    } else {
        dec_digits(x as nat)
    }
}

fn push_dec_digits(m: u64, out: &mut Vec<char>)
    ensures
        final(out)@ == old(out)@ + dec_digits(m as nat),
    decreases m,
{
    if m < 10 {
        out.push(((48 + m) as u8) as char);
        proof {
            assert(out@ =~= old(out)@ + dec_digits(m as nat));
        }
    } else {
        push_dec_digits(m / 10, out);
        out.push(((48 + (m % 10)) as u8) as char);
        proof {
            assert(out@ =~= old(out)@ + dec_digits(m as nat));
        }
    }
}

/// Formats a signed number as its decimal text.
pub fn i64_to_dec(x: i64) -> (r: String)
    ensures
        r@ == dec_of(x as int),
{
    let mut out: Vec<char> = Vec::new();
    if x < 0 {
        out.push('-');
        let mag: u64 = ((-(x + 1)) as u64) + 1;
        proof {
            assert(mag == -(x as int));
        }
        push_dec_digits(mag, &mut out);
        proof {
            assert(out@ =~= dec_of(x as int));
        }
    } else {
        push_dec_digits(x as u64, &mut out);
        proof {
            assert(out@ =~= dec_of(x as int));
        }
    }
    crate::names::chars_to_string(&out)
}

/// A well-formed value: every number literal is nonempty, starts with a
/// digit or a minus sign, and holds only number characters. Values decoded
/// against a descriptor have this shape, and it is exactly what makes a
/// serialized value unambiguous.
pub open spec fn wf_value(v: ValueModel) -> bool
    decreases v,
{
    match v {
        ValueModel::Num(s) => s.len() > 0 && (crate::names::is_ascii_digit_char(s[0]) || s[0]
            == '-') && (forall|k: int| 0 <= k < s.len() ==> is_number_char(#[trigger] s[k])),
        ValueModel::List(vs) => wf_list(vs),
        ValueModel::Obj(fs) => wf_fields(fs),
        _ => true,
    }
}

pub open spec fn wf_list(vs: Seq<ValueModel>) -> bool
    decreases vs,
{
    if vs.len() == 0 {
        true
    } else {
        wf_list(vs.drop_last()) && wf_value(vs.last())
    }
}

pub open spec fn wf_fields(fs: Seq<(Seq<char>, ValueModel)>) -> bool
    decreases fs,
{
    if fs.len() == 0 {
        true
    } else {
        wf_fields(fs.drop_last()) && wf_value(fs.last().1)
    }
}

pub proof fn lemma_wf_list_index(vs: Seq<ValueModel>, i: int)
    requires
        wf_list(vs),
        0 <= i < vs.len(),
    ensures
        wf_value(vs[i]),
    decreases vs.len(),
{
    if i < vs.len() - 1 {
        lemma_wf_list_index(vs.drop_last(), i);
    }
}

pub proof fn lemma_wf_fields_index(fs: Seq<(Seq<char>, ValueModel)>, i: int)
    requires
        wf_fields(fs),
        0 <= i < fs.len(),
    ensures
        wf_value(fs[i].1),
    decreases fs.len(),
{
    if i < fs.len() - 1 {
        lemma_wf_fields_index(fs.drop_last(), i);
    }
}

proof fn lemma_add_cancel_left(a: Seq<char>, r1: Seq<char>, r2: Seq<char>)
    requires
        a + r1 == a + r2,
    ensures
        r1 == r2,
{
    assert(a.len() + r1.len() == (a + r1).len());
    assert(a.len() + r2.len() == (a + r2).len());
    assert((a + r1).len() == (a + r2).len());
    assert(r1.len() == r2.len());
    assert forall|k: int| 0 <= k < r1.len() implies r1[k] == r2[k] by {
        assert((a + r1)[a.len() + k] == r1[k]);
        assert((a + r2)[a.len() + k] == r2[k]);
    }
    assert(r1 =~= r2);
}

proof fn lemma_escaped_single(c: char)
    ensures
        escaped_chars(seq![c]) == escape_char(c),
{
    let s = seq![c];
    assert(s.drop_last() =~= Seq::<char>::empty());
    assert(escaped_chars(s) == escaped_chars(Seq::<char>::empty()) + escape_char(c));
    assert(Seq::<char>::empty() + escape_char(c) =~= escape_char(c));
}

proof fn lemma_escaped_add(a: Seq<char>, b: Seq<char>)
    ensures
        escaped_chars(a + b) == escaped_chars(a) + escaped_chars(b),
    decreases b.len(),
{
    if b.len() == 0 {
        assert(a + b =~= a);
        assert(escaped_chars(a) + escaped_chars(b) =~= escaped_chars(a));
    } else {
        lemma_escaped_add(a, b.drop_last());
        assert((a + b).drop_last() =~= a + b.drop_last());
        assert((a + b).last() == b.last());
        assert(escaped_chars(a) + (escaped_chars(b.drop_last()) + escape_char(b.last()))
            =~= (escaped_chars(a) + escaped_chars(b.drop_last())) + escape_char(b.last()));
    }
}

proof fn lemma_escaped_front(s: Seq<char>)
    requires
        s.len() > 0,
    ensures
        escaped_chars(s) == escape_char(s[0]) + escaped_chars(s.drop_first()),
{
    assert(s =~= seq![s[0]] + s.drop_first());
    lemma_escaped_add(seq![s[0]], s.drop_first());
    lemma_escaped_single(s[0]);
}

/// The first character of a serialized value names its form: `n`, `t` or
/// `f` for the keywords, a digit or minus for a number, a quote for a
/// string, and the open bracket or brace for the containers.
proof fn lemma_json_first_char(v: ValueModel)
    requires
        wf_value(v),
    ensures
        json_of(v).len() > 0,
        v is Null ==> json_of(v)[0] == 'n',
        v == ValueModel::Bool(true) ==> json_of(v)[0] == 't',
        v == ValueModel::Bool(false) ==> json_of(v)[0] == 'f',
        v is Num ==> (crate::names::is_ascii_digit_char(json_of(v)[0]) || json_of(v)[0] == '-'),
        v is Str ==> json_of(v)[0] == '"',
        v is List ==> json_of(v)[0] == '[',
        v is Obj ==> json_of(v)[0] == '{',
{
    reveal_strlit("null");
    reveal_strlit("true");
    reveal_strlit("false");
    match v {
        ValueModel::Str(s) => {
            assert(json_of(v)[0] == (seq!['"'] + escaped_chars(s) + seq!['"'])[0]);
        },
        ValueModel::List(vs) => {
            assert(json_of(v)[0] == (seq!['['] + json_of_list(vs) + seq![']'])[0]);
        },
        ValueModel::Obj(fs) => {
            assert(json_of(v)[0] == (seq!['{'] + json_of_fields(fs) + seq!['}'])[0]);
        },
        _ => {},
    }
}

/// Escaped text is prefix-decodable: two escaped strings, each followed by
/// a closing quote, that serialize to the same text are the same string
/// with the same remainder.
#[verifier::rlimit(80)]
proof fn lemma_escaped_prefix(s1: Seq<char>, s2: Seq<char>, u1: Seq<char>, u2: Seq<char>)
    requires
        escaped_chars(s1) + u1 == escaped_chars(s2) + u2,
        u1.len() > 0 && u1[0] == '"',
        u2.len() > 0 && u2[0] == '"',
    ensures
        s1 == s2,
        u1 == u2,
    decreases s1.len(),
{
    if s1.len() == 0 {
        assert(Seq::<char>::empty() + u1 =~= u1);
        if s2.len() > 0 {
            lemma_escaped_front(s2);
            let g2 = escape_char(s2[0]);
            assert(g2.len() > 0);
            assert(g2[0] != '"');
            assert((escaped_chars(s2) + u2)[0] == g2[0]) by {
                assert(escaped_chars(s2)[0] == (g2 + escaped_chars(s2.drop_first()))[0]);
            }
            assert(u1[0] == g2[0]);
        }
        assert(s2.len() == 0);
        assert(Seq::<char>::empty() + u2 =~= u2);
        assert(s1 =~= s2);
    } else if s2.len() == 0 {
        assert(Seq::<char>::empty() + u2 =~= u2);
        lemma_escaped_front(s1);
        let g1 = escape_char(s1[0]);
        assert(g1.len() > 0);
        assert(g1[0] != '"');
        assert((escaped_chars(s1) + u1)[0] == g1[0]) by {
            assert(escaped_chars(s1)[0] == (g1 + escaped_chars(s1.drop_first()))[0]);
        }
        assert(u2[0] == g1[0]);
    } else {
        lemma_escaped_front(s1);
        lemma_escaped_front(s2);
        let c1 = s1[0];
        let c2 = s2[0];
        let g1 = escape_char(c1);
        let g2 = escape_char(c2);
        let t = escaped_chars(s1) + u1;
        let x1 = escaped_chars(s1.drop_first()) + u1;
        let x2 = escaped_chars(s2.drop_first()) + u2;
        assert(t =~= g1 + x1);
        assert(t =~= g2 + x2);
        assert(g1.len() >= 1 && g2.len() >= 1);
        assert(t[0] == g1[0] && t[0] == g2[0]);
        if g1[0] != '\\' {
            // both heads are unescaped characters written verbatim
            assert(g1 == seq![c1]);
            assert(g2[0] == g1[0]);
            assert(g2 == seq![c2]);
            assert(c1 == t[0] && c2 == t[0]);
        } else {
            // both heads are escapes: a named two-character escape or a
            // six-character \u00XX control escape, told apart by the
            // character after the backslash
            assert(g2[0] == '\\');
            assert(g1.len() >= 2 && g2.len() >= 2);
            assert(t[1] == g1[1] && t[1] == g2[1]);
            if g1[1] == 'u' {
                assert(g1 == escape_char(c1) && (c1 as u32) < 32);
                assert(g2[1] == 'u');
                assert((c2 as u32) < 32);
                assert(g1.len() == 6 && g2.len() == 6);
                assert(t[4] == g1[4] && t[4] == g2[4]);
                assert(t[5] == g1[5] && t[5] == g2[5]);
                assert(hex_digit((c1 as u32) as int / 16) == hex_digit((c2 as u32) as int / 16));
                assert(hex_digit((c1 as u32) as int % 16) == hex_digit((c2 as u32) as int % 16));
                lemma_hex_digit_injective((c1 as u32) as int / 16, (c2 as u32) as int / 16);
                lemma_hex_digit_injective((c1 as u32) as int % 16, (c2 as u32) as int % 16);
                assert((c1 as u32) == (c2 as u32));
                lemma_char_u32_injective(c1, c2);
            } else {
                assert(g1.len() == 2 && g2.len() == 2);
                assert(g1[1] == g2[1]);
                assert(c1 == c2);
            }
        }
        assert(c1 == c2);
        assert(g1 == g2);
        lemma_add_cancel_left(g1, x1, x2);
        lemma_escaped_prefix(s1.drop_first(), s2.drop_first(), u1, u2);
        assert(s1 =~= seq![c1] + s1.drop_first());
        assert(s2 =~= seq![c2] + s2.drop_first());
    }
}

proof fn lemma_char_u32_injective(c1: char, c2: char)
    requires
        (c1 as u32) == (c2 as u32),
    ensures
        c1 == c2,
{
}

proof fn lemma_hex_digit_injective(a: int, b: int)
    requires
        0 <= a < 16,
        0 <= b < 16,
        hex_digit(a) == hex_digit(b),
    ensures
        a == b,
{
    if a < 10 && b < 10 {
        assert((((48 + a) as u8) as char) as u32 == 48 + a);
        assert((((48 + b) as u8) as char) as u32 == 48 + b);
    } else if a >= 10 && b >= 10 {
        assert((((87 + a) as u8) as char) as u32 == 87 + a);
        assert((((87 + b) as u8) as char) as u32 == 87 + b);
    } else if a < 10 {
        assert((((48 + a) as u8) as char) as u32 == 48 + a);
        assert((((87 + b) as u8) as char) as u32 == 87 + b);
    } else {
        assert((((87 + a) as u8) as char) as u32 == 87 + a);
        assert((((48 + b) as u8) as char) as u32 == 48 + b);
    }
}

proof fn lemma_wf_list_from_forall(vs: Seq<ValueModel>)
    requires
        forall|i: int| 0 <= i < vs.len() ==> wf_value(#[trigger] vs[i]),
    ensures
        wf_list(vs),
    decreases vs.len(),
{
    if vs.len() > 0 {
        assert(forall|i: int|
            0 <= i < vs.drop_last().len() ==> vs.drop_last()[i] == vs[i] && wf_value(
                #[trigger] vs.drop_last()[i],
            ));
        lemma_wf_list_from_forall(vs.drop_last());
    }
}

proof fn lemma_wf_list_drop_first(vs: Seq<ValueModel>)
    requires
        wf_list(vs),
        vs.len() > 0,
    ensures
        wf_list(vs.drop_first()),
{
    assert forall|i: int| 0 <= i < vs.drop_first().len() implies wf_value(
        #[trigger] vs.drop_first()[i],
    ) by {
        assert(vs.drop_first()[i] == vs[i + 1]);
        lemma_wf_list_index(vs, i + 1);
    }
    lemma_wf_list_from_forall(vs.drop_first());
}

proof fn lemma_wf_fields_from_forall(fs: Seq<(Seq<char>, ValueModel)>)
    requires
        forall|i: int| 0 <= i < fs.len() ==> wf_value((#[trigger] fs[i]).1),
    ensures
        wf_fields(fs),
    decreases fs.len(),
{
    if fs.len() > 0 {
        assert(forall|i: int|
            0 <= i < fs.drop_last().len() ==> fs.drop_last()[i] == fs[i] && wf_value(
                (#[trigger] fs.drop_last()[i]).1,
            ));
        lemma_wf_fields_from_forall(fs.drop_last());
    }
}

proof fn lemma_wf_fields_drop_first(fs: Seq<(Seq<char>, ValueModel)>)
    requires
        wf_fields(fs),
        fs.len() > 0,
    ensures
        wf_fields(fs.drop_first()),
{
    assert forall|i: int| 0 <= i < fs.drop_first().len() implies wf_value(
        (#[trigger] fs.drop_first()[i]).1,
    ) by {
        assert(fs.drop_first()[i] == fs[i + 1]);
        lemma_wf_fields_index(fs, i + 1);
    }
    lemma_wf_fields_from_forall(fs.drop_first());
}

proof fn lemma_jl_front(vs: Seq<ValueModel>)
    requires
        vs.len() > 0,
    ensures
        json_of_list(vs) == json_of(vs[0]) + (if vs.len() == 1 {
            Seq::<char>::empty()
        } else {
            seq![','] + json_of_list(vs.drop_first())
        }),
    decreases vs.len(),
{
    if vs.len() == 1 {
        assert(json_of(vs[0]) + Seq::<char>::empty() =~= json_of(vs[0]));
    } else if vs.len() == 2 {
        assert(vs.drop_last().len() == 1);
        assert(vs.drop_last()[0] == vs[0]);
        assert(vs.drop_first().len() == 1);
        assert(vs.drop_first()[0] == vs[1]);
        assert(json_of_list(vs.drop_last()) == json_of(vs[0]));
        assert(json_of_list(vs.drop_first()) == json_of(vs[1]));
        assert(vs.last() == vs[1]);
        assert(json_of_list(vs.drop_last()) + seq![','] + json_of(vs.last()) =~= json_of(vs[0]) + (
        seq![','] + json_of_list(vs.drop_first())));
    } else {
        let dl = vs.drop_last();
        lemma_jl_front(dl);
        assert(dl[0] == vs[0]);
        assert(dl.drop_first() =~= vs.drop_first().drop_last());
        assert(vs.drop_first().last() == vs.last());
        assert(vs.drop_first().len() >= 2);
        assert(json_of_list(vs.drop_first()) == json_of_list(vs.drop_first().drop_last())
            + seq![','] + json_of(vs.drop_first().last()));
        assert(json_of_list(vs) == json_of_list(dl) + seq![','] + json_of(vs.last()));
        assert((json_of(vs[0]) + (seq![','] + json_of_list(dl.drop_first()))) + seq![',']
            + json_of(vs.last()) =~= json_of(vs[0]) + (seq![','] + json_of_list(
            vs.drop_first(),
        )));
    }
}

proof fn lemma_jf_front(fs: Seq<(Seq<char>, ValueModel)>)
    requires
        fs.len() > 0,
    ensures
        json_of_fields(fs) == json_of_field(fs[0]) + (if fs.len() == 1 {
            Seq::<char>::empty()
        } else {
            seq![','] + json_of_fields(fs.drop_first())
        }),
    decreases fs.len(),
{
    if fs.len() == 1 {
        assert(json_of_field(fs[0]) + Seq::<char>::empty() =~= json_of_field(fs[0]));
    } else if fs.len() == 2 {
        assert(fs.drop_last().len() == 1);
        assert(fs.drop_last()[0] == fs[0]);
        assert(fs.drop_first().len() == 1);
        assert(fs.drop_first()[0] == fs[1]);
        assert(json_of_fields(fs.drop_last()) == json_of_field(fs[0]));
        assert(json_of_fields(fs.drop_first()) == json_of_field(fs[1]));
        assert(fs.last() == fs[1]);
        assert(json_of_fields(fs.drop_last()) + seq![','] + json_of_field(fs.last())
            =~= json_of_field(fs[0]) + (seq![','] + json_of_fields(fs.drop_first())));
    } else {
        let dl = fs.drop_last();
        lemma_jf_front(dl);
        assert(dl[0] == fs[0]);
        assert(dl.drop_first() =~= fs.drop_first().drop_last());
        assert(fs.drop_first().last() == fs.last());
        assert(fs.drop_first().len() >= 2);
        assert(json_of_fields(fs.drop_first()) == json_of_fields(fs.drop_first().drop_last())
            + seq![','] + json_of_field(fs.drop_first().last()));
        assert(json_of_fields(fs) == json_of_fields(dl) + seq![','] + json_of_field(fs.last()));
        assert((json_of_field(fs[0]) + (seq![','] + json_of_fields(dl.drop_first()))) + seq![',']
            + json_of_field(fs.last()) =~= json_of_field(fs[0]) + (seq![','] + json_of_fields(
            fs.drop_first(),
        )));
    }
}

/// Serialized values are prefix-decodable: when two serialized well-formed
/// values followed by their remainders spell the same text, and neither
/// remainder could extend a number literal, the values and the remainders
/// coincide.
proof fn lemma_json_prefix(v1: ValueModel, v2: ValueModel, r1: Seq<char>, r2: Seq<char>)
    requires
        wf_value(v1),
        wf_value(v2),
        json_of(v1) + r1 == json_of(v2) + r2,
        v1 is Num && r1.len() > 0 ==> !is_number_char(r1[0]),
        v2 is Num && r2.len() > 0 ==> !is_number_char(r2[0]),
    ensures
        v1 == v2,
        r1 == r2,
    decreases v1,
{
    lemma_json_first_char(v1);
    lemma_json_first_char(v2);
    let t = json_of(v1) + r1;
    assert(t[0] == json_of(v1)[0]);
    assert(t[0] == json_of(v2)[0]);
    match (v1, v2) {
        (ValueModel::Null, ValueModel::Null) => {
            lemma_add_cancel_left("null"@, r1, r2);
        },
        (ValueModel::Bool(b1), ValueModel::Bool(b2)) => {
            if b1 != b2 {
                assert(t[0] == 't' && t[0] == 'f');
            }
            if b1 {
                lemma_add_cancel_left("true"@, r1, r2);
            } else {
                lemma_add_cancel_left("false"@, r1, r2);
            }
        },
        (ValueModel::Num(s1), ValueModel::Num(s2)) => {
            if s1.len() < s2.len() {
                assert(t[s1.len() as int] == r1[0] || r1.len() == 0) by {
                    if r1.len() > 0 {
                        assert(t[s1.len() as int] == (json_of(v1) + r1)[s1.len() as int]);
                    }
                }
                assert(t.len() == s1.len() + r1.len());
                assert(t.len() >= s2.len());
                assert(r1.len() > 0);
                assert(t[s1.len() as int] == r1[0]);
                assert(t[s1.len() as int] == s2[s1.len() as int]);
                assert(is_number_char(s2[s1.len() as int]));
            } else if s2.len() < s1.len() {
                assert(t.len() == s2.len() + r2.len());
                assert(t.len() >= s1.len());
                assert(r2.len() > 0);
                assert(t[s2.len() as int] == r2[0]);
                assert(t[s2.len() as int] == s1[s2.len() as int]);
                assert(is_number_char(s1[s2.len() as int]));
            } else {
                assert forall|k: int| 0 <= k < s1.len() implies s1[k] == s2[k] by {
                    assert(t[k] == s1[k] && t[k] == s2[k]);
                }
                assert(s1 =~= s2);
                lemma_add_cancel_left(s1, r1, r2);
            }
        },
        (ValueModel::Str(s1), ValueModel::Str(s2)) => {
            let u1 = seq!['"'] + r1;
            let u2 = seq!['"'] + r2;
            assert(json_of(v1) + r1 =~= seq!['"'] + (escaped_chars(s1) + u1));
            assert(json_of(v2) + r2 =~= seq!['"'] + (escaped_chars(s2) + u2));
            lemma_add_cancel_left(seq!['"'], escaped_chars(s1) + u1, escaped_chars(s2) + u2);
            lemma_escaped_prefix(s1, s2, u1, u2);
            lemma_add_cancel_left(seq!['"'], r1, r2);
        },
        (ValueModel::List(vs1), ValueModel::List(vs2)) => {
            let w1 = seq![']'] + r1;
            let w2 = seq![']'] + r2;
            assert(json_of(v1) + r1 =~= seq!['['] + (json_of_list(vs1) + w1));
            assert(json_of(v2) + r2 =~= seq!['['] + (json_of_list(vs2) + w2));
            lemma_add_cancel_left(seq!['['], json_of_list(vs1) + w1, json_of_list(vs2) + w2);
            lemma_json_list_prefix(vs1, vs2, w1, w2);
            lemma_add_cancel_left(seq![']'], r1, r2);
        },
        (ValueModel::Obj(fs1), ValueModel::Obj(fs2)) => {
            let w1 = seq!['}'] + r1;
            let w2 = seq!['}'] + r2;
            assert(json_of(v1) + r1 =~= seq!['{'] + (json_of_fields(fs1) + w1));
            assert(json_of(v2) + r2 =~= seq!['{'] + (json_of_fields(fs2) + w2));
            lemma_add_cancel_left(seq!['{'], json_of_fields(fs1) + w1, json_of_fields(fs2) + w2);
            lemma_json_fields_prefix(fs1, fs2, w1, w2);
            lemma_add_cancel_left(seq!['}'], r1, r2);
        },
        _ => {
            // the first characters of distinct forms are distinct, so no
            // cross-form case spells the same text
            assert(false);
        },
    }
}

proof fn lemma_json_list_prefix(
    vs1: Seq<ValueModel>,
    vs2: Seq<ValueModel>,
    w1: Seq<char>,
    w2: Seq<char>,
)
    requires
        wf_list(vs1),
        wf_list(vs2),
        json_of_list(vs1) + w1 == json_of_list(vs2) + w2,
        w1.len() > 0 && w1[0] == ']',
        w2.len() > 0 && w2[0] == ']',
    ensures
        vs1 == vs2,
        w1 == w2,
    decreases vs1,
{
    if vs1.len() == 0 {
        assert(Seq::<char>::empty() + w1 =~= w1);
        if vs2.len() > 0 {
            lemma_jl_front(vs2);
            lemma_wf_list_index(vs2, 0);
            lemma_json_first_char(vs2[0]);
            assert((json_of_list(vs2) + w2)[0] == json_of(vs2[0])[0]);
            assert(w1[0] == json_of(vs2[0])[0]);
        }
        assert(vs2.len() == 0);
        assert(Seq::<char>::empty() + w2 =~= w2);
        assert(vs1 =~= vs2);
    } else if vs2.len() == 0 {
        assert(Seq::<char>::empty() + w2 =~= w2);
        lemma_jl_front(vs1);
        lemma_wf_list_index(vs1, 0);
        lemma_json_first_char(vs1[0]);
        assert((json_of_list(vs1) + w1)[0] == json_of(vs1[0])[0]);
        assert(w2[0] == json_of(vs1[0])[0]);
    } else {
        lemma_jl_front(vs1);
        lemma_jl_front(vs2);
        lemma_wf_list_index(vs1, 0);
        lemma_wf_list_index(vs2, 0);
        let y1 = if vs1.len() == 1 {
            w1
        } else {
            seq![','] + json_of_list(vs1.drop_first()) + w1
        };
        let y2 = if vs2.len() == 1 {
            w2
        } else {
            seq![','] + json_of_list(vs2.drop_first()) + w2
        };
        assert(json_of_list(vs1) + w1 =~= json_of(vs1[0]) + y1);
        assert(json_of_list(vs2) + w2 =~= json_of(vs2[0]) + y2);
        assert(y1.len() > 0 && (y1[0] == ']' || y1[0] == ','));
        assert(y2.len() > 0 && (y2[0] == ']' || y2[0] == ','));
        lemma_json_prefix(vs1[0], vs2[0], y1, y2);
        if vs1.len() == 1 && vs2.len() == 1 {
            assert(vs1 =~= vs2);
        } else if vs1.len() == 1 {
            assert(y1[0] == ']' && y2[0] == ',');
        } else if vs2.len() == 1 {
            assert(y1[0] == ',' && y2[0] == ']');
        } else {
            assert(y1 =~= seq![','] + (json_of_list(vs1.drop_first()) + w1));
            assert(y2 =~= seq![','] + (json_of_list(vs2.drop_first()) + w2));
            lemma_add_cancel_left(
                seq![','],
                json_of_list(vs1.drop_first()) + w1,
                json_of_list(vs2.drop_first()) + w2,
            );
            lemma_wf_list_drop_first(vs1);
            lemma_wf_list_drop_first(vs2);
            lemma_json_list_prefix(vs1.drop_first(), vs2.drop_first(), w1, w2);
            assert(vs1 =~= seq![vs1[0]] + vs1.drop_first());
            assert(vs2 =~= seq![vs2[0]] + vs2.drop_first());
        }
    }
}

#[verifier::rlimit(100)]
proof fn lemma_json_fields_prefix(
    fs1: Seq<(Seq<char>, ValueModel)>,
    fs2: Seq<(Seq<char>, ValueModel)>,
    w1: Seq<char>,
    w2: Seq<char>,
)
    requires
        wf_fields(fs1),
        wf_fields(fs2),
        json_of_fields(fs1) + w1 == json_of_fields(fs2) + w2,
        w1.len() > 0 && w1[0] == '}',
        w2.len() > 0 && w2[0] == '}',
    ensures
        fs1 == fs2,
        w1 == w2,
    decreases fs1,
{
    if fs1.len() == 0 {
        assert(Seq::<char>::empty() + w1 =~= w1);
        if fs2.len() > 0 {
            lemma_jf_front(fs2);
            assert((json_of_fields(fs2) + w2)[0] == json_of_field(fs2[0])[0]);
            assert(json_of_field(fs2[0])[0] == '"');
            assert(w1[0] == '"');
        }
        assert(fs2.len() == 0);
        assert(Seq::<char>::empty() + w2 =~= w2);
        assert(fs1 =~= fs2);
    } else if fs2.len() == 0 {
        assert(Seq::<char>::empty() + w2 =~= w2);
        lemma_jf_front(fs1);
        assert((json_of_fields(fs1) + w1)[0] == json_of_field(fs1[0])[0]);
        assert(json_of_field(fs1[0])[0] == '"');
        assert(w2[0] == '"');
    } else {
        lemma_jf_front(fs1);
        lemma_jf_front(fs2);
        lemma_wf_fields_index(fs1, 0);
        lemma_wf_fields_index(fs2, 0);
        let k1 = fs1[0].0;
        let k2 = fs2[0].0;
        let val1 = fs1[0].1;
        let val2 = fs2[0].1;
        let y1 = if fs1.len() == 1 {
            w1
        } else {
            seq![','] + json_of_fields(fs1.drop_first()) + w1
        };
        let y2 = if fs2.len() == 1 {
            w2
        } else {
            seq![','] + json_of_fields(fs2.drop_first()) + w2
        };
        // a field group is quote, escaped key, quote, colon, value
        let tail1 = seq!['"', ':'] + json_of(val1) + y1;
        let tail2 = seq!['"', ':'] + json_of(val2) + y2;
        assert(json_of_fields(fs1) + w1 =~= seq!['"'] + (escaped_chars(k1) + (seq!['"'] + (
        seq![':'] + (json_of(val1) + y1)))));
        assert(json_of_fields(fs2) + w2 =~= seq!['"'] + (escaped_chars(k2) + (seq!['"'] + (
        seq![':'] + (json_of(val2) + y2)))));
        lemma_add_cancel_left(
            seq!['"'],
            escaped_chars(k1) + (seq!['"'] + (seq![':'] + (json_of(val1) + y1))),
            escaped_chars(k2) + (seq!['"'] + (seq![':'] + (json_of(val2) + y2))),
        );
        lemma_escaped_prefix(
            k1,
            k2,
            seq!['"'] + (seq![':'] + (json_of(val1) + y1)),
            seq!['"'] + (seq![':'] + (json_of(val2) + y2)),
        );
        lemma_add_cancel_left(
            seq!['"'],
            seq![':'] + (json_of(val1) + y1),
            seq![':'] + (json_of(val2) + y2),
        );
        lemma_add_cancel_left(seq![':'], json_of(val1) + y1, json_of(val2) + y2);
        assert(y1.len() > 0 && (y1[0] == '}' || y1[0] == ','));
        assert(y2.len() > 0 && (y2[0] == '}' || y2[0] == ','));
        lemma_json_prefix(val1, val2, y1, y2);
        if fs1.len() == 1 && fs2.len() == 1 {
            assert(fs1[0] == fs2[0]);
            assert(fs1 =~= fs2);
        } else if fs1.len() == 1 {
            assert(y1[0] == '}' && y2[0] == ',');
        } else if fs2.len() == 1 {
            assert(y1[0] == ',' && y2[0] == '}');
        } else {
            assert(y1 =~= seq![','] + (json_of_fields(fs1.drop_first()) + w1));
            assert(y2 =~= seq![','] + (json_of_fields(fs2.drop_first()) + w2));
            lemma_add_cancel_left(
                seq![','],
                json_of_fields(fs1.drop_first()) + w1,
                json_of_fields(fs2.drop_first()) + w2,
            );
            lemma_wf_fields_drop_first(fs1);
            lemma_wf_fields_drop_first(fs2);
            lemma_json_fields_prefix(fs1.drop_first(), fs2.drop_first(), w1, w2);
            assert(fs1[0] == fs2[0]);
            assert(fs1 =~= seq![fs1[0]] + fs1.drop_first());
            assert(fs2 =~= seq![fs2[0]] + fs2.drop_first());
        }
    }
}

/// Round-trip law: serialization is injective on well-formed values, so a
/// value read back from a serialized well-formed value — as the parser's
/// own contract guarantees of every successful parse — is that value,
/// field for field.
pub proof fn lemma_round_trip(v: ValueModel, w: ValueModel)
    requires
        wf_value(v),
        wf_value(w),
        json_of(w) == json_of(v),
    ensures
        w == v,
{
    assert(json_of(v) + Seq::<char>::empty() =~= json_of(v));
    assert(json_of(w) + Seq::<char>::empty() =~= json_of(w));
    lemma_json_prefix(v, w, Seq::<char>::empty(), Seq::<char>::empty());
}

/// A serialized well-formed value occupies `cs` from `pos`, and — when it
/// is a number — the following character, if any, cannot extend the
/// literal.
pub open spec fn value_at(cs: Seq<char>, pos: int, w: ValueModel) -> bool {
    &&& pos + json_of(w).len() <= cs.len()
    &&& cs.subrange(pos, pos + json_of(w).len()) == json_of(w)
    &&& (w is Num && pos + json_of(w).len() < cs.len() ==> !is_number_char(
        cs[pos + json_of(w).len()],
    ))
}

/// A quoted escaped string occupies `cs` from `pos`.
pub open spec fn string_at(cs: Seq<char>, pos: int, t: Seq<char>) -> bool {
    &&& pos + 2 + escaped_chars(t).len() <= cs.len()
    &&& cs.subrange(pos, pos + 2 + escaped_chars(t).len()) == seq!['"'] + escaped_chars(t)
        + seq!['"']
}

proof fn lemma_jl_split(ws: Seq<ValueModel>, k: int)
    requires
        1 <= k < ws.len(),
    ensures
        json_of_list(ws) == json_of_list(ws.take(k)) + seq![','] + json_of_list(ws.skip(k)),
    decreases k,
{
    lemma_jl_front(ws);
    if k == 1 {
        assert(ws.take(1).len() == 1);
        assert(ws.take(1)[0] == ws[0]);
        assert(json_of_list(ws.take(1)) == json_of(ws[0]));
        assert(ws.skip(1) =~= ws.drop_first());
        assert(json_of(ws[0]) + (seq![','] + json_of_list(ws.drop_first()))
            =~= json_of_list(ws.take(1)) + seq![','] + json_of_list(ws.skip(1)));
    } else {
        lemma_jl_split(ws.drop_first(), k - 1);
        lemma_jl_front(ws.take(k));
        assert(ws.take(k)[0] == ws[0]);
        assert(ws.take(k).len() == k);
        assert(ws.take(k).drop_first() =~= ws.drop_first().take(k - 1));
        assert(ws.drop_first().skip(k - 1) =~= ws.skip(k));
        assert(json_of_list(ws) == json_of(ws[0]) + (seq![','] + json_of_list(ws.drop_first())));
        assert(json_of_list(ws.drop_first()) == json_of_list(ws.drop_first().take(k - 1))
            + seq![','] + json_of_list(ws.drop_first().skip(k - 1)));
        assert(json_of_list(ws.take(k)) == json_of(ws[0]) + (seq![','] + json_of_list(
            ws.drop_first().take(k - 1),
        )));
        assert(json_of_list(ws) =~= json_of_list(ws.take(k)) + seq![','] + json_of_list(
            ws.skip(k),
        ));
    }
}

proof fn lemma_jf_split(fs: Seq<(Seq<char>, ValueModel)>, k: int)
    requires
        1 <= k < fs.len(),
    ensures
        json_of_fields(fs) == json_of_fields(fs.take(k)) + seq![','] + json_of_fields(fs.skip(k)),
    decreases k,
{
    lemma_jf_front(fs);
    if k == 1 {
        assert(fs.take(1).len() == 1);
        assert(fs.take(1)[0] == fs[0]);
        assert(json_of_fields(fs.take(1)) == json_of_field(fs[0]));
        assert(fs.skip(1) =~= fs.drop_first());
        assert(json_of_field(fs[0]) + (seq![','] + json_of_fields(fs.drop_first()))
            =~= json_of_fields(fs.take(1)) + seq![','] + json_of_fields(fs.skip(1)));
    } else {
        lemma_jf_split(fs.drop_first(), k - 1);
        lemma_jf_front(fs.take(k));
        assert(fs.take(k)[0] == fs[0]);
        assert(fs.take(k).len() == k);
        assert(fs.take(k).drop_first() =~= fs.drop_first().take(k - 1));
        assert(fs.drop_first().skip(k - 1) =~= fs.skip(k));
        assert(json_of_fields(fs) == json_of_field(fs[0]) + (seq![','] + json_of_fields(
            fs.drop_first(),
        )));
        assert(json_of_fields(fs.drop_first()) == json_of_fields(fs.drop_first().take(k - 1))
            + seq![','] + json_of_fields(fs.drop_first().skip(k - 1)));
        assert(json_of_fields(fs.take(k)) == json_of_field(fs[0]) + (seq![','] + json_of_fields(
            fs.drop_first().take(k - 1),
        )));
        assert(json_of_fields(fs) =~= json_of_fields(fs.take(k)) + seq![','] + json_of_fields(
            fs.skip(k),
        ));
    }
}
} // verus!
