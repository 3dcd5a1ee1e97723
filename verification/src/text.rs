use vstd::prelude::*;
use vstd::string::StringExecFns;
use vstd::string::StrSliceExecFns;
use crate::model::JVal;
use crate::num::push_char;
use crate::value::{Value, lemma_arr_model, lemma_obj_model};

verus! {

broadcast use vstd::std_specs::vec::group_vec_axioms, vstd::seq::group_seq_axioms;

/// The lower-case hexadecimal digit for a value below sixteen.
pub open spec fn hex_digit(d: int) -> char {
    if d == 0 {
        '0'
    } else if d == 1 {
        '1'
    } else if d == 2 {
        '2'
    } else if d == 3 {
        '3'
    } else if d == 4 {
        '4'
    } else if d == 5 {
        '5'
    } else if d == 6 {
        '6'
    } else if d == 7 {
        '7'
    } else if d == 8 {
        '8'
    } else if d == 9 {
        '9'
    } else if d == 10 {
        'a'
    } else if d == 11 {
        'b'
    } else if d == 12 {
        'c'
    } else if d == 13 {
        'd'
    } else if d == 14 {
        'e'
    } else {
        'f'
    }
}

/// How one character appears inside a rendered string literal: quotes and
/// backslashes are escaped, the common control characters get their short
/// forms, other control characters a four-digit escape.
pub open spec fn escape_char(c: char) -> Seq<char> {
    if c == '"' {
        seq!['\\', '"']
    } else if c == '\\' {
        seq!['\\', '\\']
    } else if c == '\n' {
        seq!['\\', 'n']
    } else if c == '\r' {
        seq!['\\', 'r']
    } else if c == '\t' {
        seq!['\\', 't']
    } else if (c as u32) < 32 {
        seq!['\\', 'u', '0', '0', hex_digit(c as u32 as int / 16), hex_digit(c as u32 as int % 16)]
    } else {
        seq![c]
    }
}

/// A whole string's characters, escaped in order.
pub open spec fn escape_str(s: Seq<char>) -> Seq<char>
    decreases s.len(),
{
    if s.len() == 0 {
        Seq::empty()
    } else {
        escape_str(s.drop_last()) + escape_char(s.last())
    }
}

/// The rendered text of a value: compact JSON, object keys quoted.
pub open spec fn text_of(v: JVal) -> Seq<char>
    decreases v,
{
    match v {
        JVal::Null => "null"@,
        JVal::Bool(b) => if b {
            "true"@
        } else {
            "false"@
        },
        JVal::Num(t) => t,
        JVal::Str(s) => seq!['"'] + escape_str(s) + seq!['"'],
        JVal::Arr(items) => seq!['['] + arr_texts(items) + seq![']'],
        JVal::Obj(es) => seq!['{'] + obj_texts(es) + seq!['}'],
    }
}

/// The comma-separated texts of array elements.
pub open spec fn arr_texts(items: Seq<JVal>) -> Seq<char>
    decreases items,
{
    if items.len() == 0 {
        Seq::empty()
    } else if items.len() == 1 {
        text_of(items[0])
    } else {
        arr_texts(items.drop_last()) + seq![','] + text_of(items.last())
    }
}

/// The comma-separated `"key":value` texts of object entries.
pub open spec fn obj_texts(es: Seq<(Seq<char>, JVal)>) -> Seq<char>
    decreases es,
{
    if es.len() == 0 {
        Seq::empty()
    } else if es.len() == 1 {
        entry_text(es[0])
    } else {
        obj_texts(es.drop_last()) + seq![','] + entry_text(es.last())
    }
}

/// The `"key":value` text of one object entry.
pub open spec fn entry_text(e: (Seq<char>, JVal)) -> Seq<char>
    decreases e,
{
    seq!['"'] + escape_str(e.0) + seq!['"', ':'] + text_of(e.1)
}

/// Append one character's escaped form to a string.
fn push_escaped(out: &mut String, c: char)
    ensures
        final(out)@ == old(out)@ + escape_char(c),
{
    let cv = c as u32;
    if c == '"' {
        push_char(out, '\\');
        push_char(out, '"');
    } else if c == '\\' {
        push_char(out, '\\');
        push_char(out, '\\');
    } else if c == '\n' {
        push_char(out, '\\');
        push_char(out, 'n');
    } else if c == '\r' {
        push_char(out, '\\');
        push_char(out, 'r');
    } else if c == '\t' {
        push_char(out, '\\');
        push_char(out, 't');
    } else if cv < 32 {
        push_char(out, '\\');
        push_char(out, 'u');
        push_char(out, '0');
        push_char(out, '0');
        push_char(out, hex_digit_exec(cv / 16));
        push_char(out, hex_digit_exec(cv % 16));
    } else {
        push_char(out, c);
    }
    proof {
        assert(final(out)@ =~= old(out)@ + escape_char(c));
    }
}

/// The lower-case hexadecimal digit for a value below sixteen.
pub(crate) fn hex_digit_exec(d: u32) -> (r: char)
    requires
        0 <= d < 16,
    ensures
        r == hex_digit(d as int),
{
    if d == 0 {
        '0'
    } else if d == 1 {
        '1'
    } else if d == 2 {
        '2'
    } else if d == 3 {
        '3'
    } else if d == 4 {
        '4'
    } else if d == 5 {
        '5'
    } else if d == 6 {
        '6'
    } else if d == 7 {
        '7'
    } else if d == 8 {
        '8'
    } else if d == 9 {
        '9'
    } else if d == 10 {
        'a'
    } else if d == 11 {
        'b'
    } else if d == 12 {
        'c'
    } else if d == 13 {
        'd'
    } else if d == 14 {
        'e'
    } else {
        'f'
    }
}

/// Append a string's escaped characters to the output.
fn append_escaped(out: &mut String, s: &str)
    ensures
        final(out)@ == old(out)@ + escape_str(s@),
{
    let n = s.unicode_len();
    let mut i: usize = 0;
    while i < n
        invariant
            0 <= i <= n,
            n == s@.len(),
            out@ == old(out)@ + escape_str(s@.take(i as int)),
        decreases n - i,
    {
        let c = s.get_char(i);
        push_escaped(out, c);
        proof {
            assert(s@.take(i + 1).drop_last() =~= s@.take(i as int));
            assert(s@.take(i + 1).last() == s@[i as int]);
            assert(out@ =~= old(out)@ + escape_str(s@.take(i + 1)));
        }
        i = i + 1;
    }
    proof {
        assert(s@.take(n as int) =~= s@);
    }
}

impl Value {
    /// The rendered text of this value: compact JSON.
    pub fn to_text(&self) -> (r: String)
        ensures
            r@ == text_of(self@),
        decreases self,
    {
        match self {
            Value::Null => {
                let r: String = "null".to_owned();
                r
            },
            Value::Bool(b) => {
                if *b {
                    "true".to_owned()
                } else {
                    "false".to_owned()
                }
            },
            Value::Num(t) => t.clone(),
            Value::Str(s) => {
                let mut out = String::new();
                push_char(&mut out, '"');
                append_escaped(&mut out, s.as_str());
                push_char(&mut out, '"');
                proof {
                    assert(out@ =~= text_of(self@));
                }
                out
            },
            Value::Arr(items) => {
                proof {
                    lemma_arr_model(items@);
                }
                let ghost m = Value::arr_model(items@);
                let mut out = String::new();
                push_char(&mut out, '[');
                let mut i: usize = 0;
                while i < items.len()
                    invariant
                        *self == Value::Arr(*items),
                        m == Value::arr_model(items@),
                        m.len() == items@.len(),
                        forall|j: int| 0 <= j < m.len() ==> m[j] == items@[j]@,
                        0 <= i <= items@.len(),
                        out@ == seq!['['] + arr_texts(m.take(i as int)),
                    decreases items@.len() - i,
                {
                    proof {
                        assert(decreases_to!(*self => self->Arr_0));
                        assert(self->Arr_0 == *items);
                        assert(decreases_to!(*items => items@));
                        assert(decreases_to!(items@ => items@[i as int]));
                    }
                    if i > 0 {
                        push_char(&mut out, ',');
                    }
                    let piece = items[i].to_text();
                    out.append(piece.as_str());
                    proof {
                        assert(m.take(i + 1).drop_last() =~= m.take(i as int));
                        assert(m.take(i + 1).last() == m[i as int]);
                        if i == 0 {
                            assert(arr_texts(m.take(1)) == text_of(m[0]));
                        }
                        assert(out@ =~= seq!['['] + arr_texts(m.take(i + 1)));
                    }
                    i = i + 1;
                }
                push_char(&mut out, ']');
                proof {
                    assert(m.take(m.len() as int) =~= m);
                    assert(out@ =~= text_of(self@));
                }
                out
            },
            Value::Obj(o) => {
                proof {
                    lemma_obj_model(o.entries@);
                }
                let ghost m = Value::obj_model(o.entries@);
                let mut out = String::new();
                push_char(&mut out, '{');
                let mut i: usize = 0;
                while i < o.entries.len()
                    invariant
                        *self == Value::Obj(*o),
                        m == Value::obj_model(o.entries@),
                        m.len() == o.entries@.len(),
                        forall|j: int|
                            0 <= j < m.len() ==> m[j] == (o.entries@[j].0@, o.entries@[j].1@),
                        0 <= i <= o.entries@.len(),
                        out@ == seq!['{'] + obj_texts(m.take(i as int)),
                    decreases o.entries@.len() - i,
                {
                    proof {
                        assert(decreases_to!(*self => self->Obj_0));
                        assert(self->Obj_0 == *o);
                        assert(decreases_to!(*o => o.entries));
                        assert(decreases_to!(o.entries => o.entries@));
                        assert(decreases_to!(o.entries@ => o.entries@[i as int]));
                        assert(decreases_to!(o.entries@[i as int] => o.entries@[i as int].1));
                    }
                    if i > 0 {
                        push_char(&mut out, ',');
                    }
                    push_char(&mut out, '"');
                    append_escaped(&mut out, o.entries[i].0.as_str());
                    push_char(&mut out, '"');
                    push_char(&mut out, ':');
                    let piece = o.entries[i].1.to_text();
                    out.append(piece.as_str());
                    proof {
                        assert(m.take(i + 1).drop_last() =~= m.take(i as int));
                        assert(m.take(i + 1).last() == m[i as int]);
                        if i == 0 {
                            assert(obj_texts(m.take(1)) == entry_text(m[0]));
                        }
                        assert(entry_text(m[i as int]) == seq!['"'] + escape_str(m[i as int].0)
                            + seq!['"', ':'] + text_of(m[i as int].1));
                        assert(out@ =~= seq!['{'] + obj_texts(m.take(i + 1)));
                    }
                    i = i + 1;
                }
                push_char(&mut out, '}');
                proof {
                    assert(m.take(m.len() as int) =~= m);
                    assert(out@ =~= text_of(self@));
                }
                out
            },
        }
    }
}

} // verus!
