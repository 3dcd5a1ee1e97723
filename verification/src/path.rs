use vstd::prelude::*;
use vstd::string::StringExecFns;
use vstd::string::StrSliceExecFns;
use crate::model::JVal;
use crate::num::push_char;
use crate::text::{text_of, hex_digit};
use crate::value::{Value, path_models, lemma_arr_model, lemma_obj_model};

verus! {

broadcast use vstd::std_specs::vec::group_vec_axioms, vstd::seq::group_seq_axioms;

/// Access to a value in a JSON-like structure by a path of string tokens,
/// with the result encoded as plain text.
pub trait PathString {
    fn path_string(&self, path: &[String]) -> Option<String>;
}

/// Access to a value in a JSON-like structure by a path of string tokens,
/// with the result encoded as GraphQL value text.
pub trait PathGraphql {
    fn path_graphql(&self, path: &[String]) -> Option<String>;
}

/// Whether a character is a control character.
pub open spec fn is_control(c: char) -> bool {
    (c as u32) < 32 || (c as u32) == 127 || (128 <= (c as u32) && (c as u32) <= 159)
}

/// How one character appears inside a GraphQL string literal: the common
/// escapes get their short forms, other control characters a four-digit
/// decimal escape.
pub open spec fn gescape_char(c: char) -> Seq<char> {
    if c == '\r' {
        seq!['\\', 'r']
    } else if c == '\n' {
        seq!['\\', 'n']
    } else if c == '\t' {
        seq!['\\', 't']
    } else if c == '"' {
        seq!['\\', '"']
    } else if c == '\\' {
        seq!['\\', '\\']
    } else if is_control(c) {
        seq![
            '\\',
            'u',
            hex_digit(c as u32 as int / 1000),
            hex_digit(c as u32 as int / 100 % 10),
            hex_digit(c as u32 as int / 10 % 10),
            hex_digit(c as u32 as int % 10),
        ]
    } else {
        seq![c]
    }
}

/// A whole string's characters, escaped for a GraphQL literal, in order.
pub open spec fn gescape_str(s: Seq<char>) -> Seq<char>
    decreases s.len(),
{
    if s.len() == 0 {
        Seq::empty()
    } else {
        gescape_str(s.drop_last()) + gescape_char(s.last())
    }
}

/// The GraphQL text of a value: keys bare, elements separated by a comma
/// and a space, strings quoted.
pub open spec fn gtext_of(v: JVal) -> Seq<char>
    decreases v,
{
    match v {
        JVal::Null => "null"@,
        JVal::Bool(b) => if b {
            "true"@
        } else {
            "false"@
        },
        JVal::Num(t) => t,
        JVal::Str(s) => seq!['"'] + gescape_str(s) + seq!['"'],
        JVal::Arr(items) => seq!['['] + garr_texts(items) + seq![']'],
        JVal::Obj(es) => seq!['{'] + gobj_texts(es) + seq!['}'],
    }
}

/// The texts of array elements, separated by a comma and a space.
pub open spec fn garr_texts(items: Seq<JVal>) -> Seq<char>
    decreases items,
{
    if items.len() == 0 {
        Seq::empty()
    } else if items.len() == 1 {
        gtext_of(items[0])
    } else {
        garr_texts(items.drop_last()) + seq![',', ' '] + gtext_of(items.last())
    }
}

/// The `key: value` texts of object entries, separated by a comma and a
/// space.
pub open spec fn gobj_texts(es: Seq<(Seq<char>, JVal)>) -> Seq<char>
    decreases es,
{
    if es.len() == 0 {
        Seq::empty()
    } else if es.len() == 1 {
        gentry_text(es[0])
    } else {
        gobj_texts(es.drop_last()) + seq![',', ' '] + gentry_text(es.last())
    }
}

/// The `key: value` text of one object entry; the key stands bare.
pub open spec fn gentry_text(e: (Seq<char>, JVal)) -> Seq<char>
    decreases e,
{
    e.0 + seq![':', ' '] + gtext_of(e.1)
}

/// Append one character's GraphQL-escaped form to a string.
fn push_gescaped(out: &mut String, c: char)
    ensures
        final(out)@ == old(out)@ + gescape_char(c),
{
    let cv = c as u32;
    if c == '\r' {
        push_char(out, '\\');
        push_char(out, 'r');
    } else if c == '\n' {
        push_char(out, '\\');
        push_char(out, 'n');
    } else if c == '\t' {
        push_char(out, '\\');
        push_char(out, 't');
    } else if c == '"' {
        push_char(out, '\\');
        push_char(out, '"');
    } else if c == '\\' {
        push_char(out, '\\');
        push_char(out, '\\');
    } else if cv < 32 || cv == 127 || (128 <= cv && cv <= 159) {
        push_char(out, '\\');
        push_char(out, 'u');
        push_char(out, crate::text::hex_digit_exec(cv / 1000));
        push_char(out, crate::text::hex_digit_exec(cv / 100 % 10));
        push_char(out, crate::text::hex_digit_exec(cv / 10 % 10));
        push_char(out, crate::text::hex_digit_exec(cv % 10));
    } else {
        push_char(out, c);
    }
    proof {
        assert(final(out)@ =~= old(out)@ + gescape_char(c));
    }
}

/// Append a string's GraphQL-escaped characters to the output.
fn append_gescaped(out: &mut String, s: &str)
    ensures
        final(out)@ == old(out)@ + gescape_str(s@),
{
    let n = s.unicode_len();
    let mut i: usize = 0;
    while i < n
        invariant
            0 <= i <= n,
            n == s@.len(),
            out@ == old(out)@ + gescape_str(s@.take(i as int)),
        decreases n - i,
    {
        let c = s.get_char(i);
        push_gescaped(out, c);
        proof {
            assert(s@.take(i + 1).drop_last() =~= s@.take(i as int));
            assert(s@.take(i + 1).last() == s@[i as int]);
            assert(out@ =~= old(out)@ + gescape_str(s@.take(i + 1)));
        }
        i = i + 1;
    }
    proof {
        assert(s@.take(n as int) =~= s@);
    }
}

impl Value {
    /// The GraphQL text of this value.
    pub fn to_graphql_text(&self) -> (r: String)
        ensures
            r@ == gtext_of(self@),
        decreases self,
    {
        match self {
            Value::Null => "null".to_owned(),
            Value::Bool(b) => {
                if *b {
                    "true".to_owned()
                } else {
                    "false".to_owned()
                }
            },
            Value::Num(t) => t.clone(),
            Value::Str(s) => {
                let mut out = String::new();
                push_char(&mut out, '"');
                append_gescaped(&mut out, s.as_str());
                push_char(&mut out, '"');
                proof {
                    assert(out@ =~= gtext_of(self@));
                }
                out
            },
            Value::Arr(items) => {
                proof {
                    lemma_arr_model(items@);
                }
                let ghost m = Value::arr_model(items@);
                let mut out = String::new();
                push_char(&mut out, '[');
                let mut i: usize = 0;
                while i < items.len()
                    invariant
                        *self == Value::Arr(*items),
                        m == Value::arr_model(items@),
                        m.len() == items@.len(),
                        forall|j: int| 0 <= j < m.len() ==> m[j] == items@[j]@,
                        0 <= i <= items@.len(),
                        out@ == seq!['['] + garr_texts(m.take(i as int)),
                    decreases items@.len() - i,
                {
                    proof {
                        assert(decreases_to!(*self => self->Arr_0));
                        assert(self->Arr_0 == *items);
                        assert(decreases_to!(*items => items@));
                        assert(decreases_to!(items@ => items@[i as int]));
                    }
                    if i > 0 {
                        push_char(&mut out, ',');
                        push_char(&mut out, ' ');
                    }
                    let piece = items[i].to_graphql_text();
                    out.append(piece.as_str());
                    proof {
                        assert(m.take(i + 1).drop_last() =~= m.take(i as int));
                        assert(m.take(i + 1).last() == m[i as int]);
                        if i == 0 {
                            assert(garr_texts(m.take(1)) == gtext_of(m[0]));
                        }
                        assert(out@ =~= seq!['['] + garr_texts(m.take(i + 1)));
                    }
                    i = i + 1;
                }
                push_char(&mut out, ']');
                proof {
                    assert(m.take(m.len() as int) =~= m);
                    assert(out@ =~= gtext_of(self@));
                }
                out
            },
            Value::Obj(o) => {
                proof {
                    lemma_obj_model(o.entries@);
                }
                let ghost m = Value::obj_model(o.entries@);
                let mut out = String::new();
                push_char(&mut out, '{');
                let mut i: usize = 0;
                while i < o.entries.len()
                    invariant
                        *self == Value::Obj(*o),
                        m == Value::obj_model(o.entries@),
                        m.len() == o.entries@.len(),
                        forall|j: int|
                            0 <= j < m.len() ==> m[j] == (o.entries@[j].0@, o.entries@[j].1@),
                        0 <= i <= o.entries@.len(),
                        out@ == seq!['{'] + gobj_texts(m.take(i as int)),
                    decreases o.entries@.len() - i,
                {
                    proof {
                        assert(decreases_to!(*self => self->Obj_0));
                        assert(self->Obj_0 == *o);
                        assert(decreases_to!(*o => o.entries));
                        assert(decreases_to!(o.entries => o.entries@));
                        assert(decreases_to!(o.entries@ => o.entries@[i as int]));
                        assert(decreases_to!(o.entries@[i as int] => o.entries@[i as int].1));
                    }
                    if i > 0 {
                        push_char(&mut out, ',');
                        push_char(&mut out, ' ');
                    }
                    out.append(o.entries[i].0.as_str());
                    push_char(&mut out, ':');
                    push_char(&mut out, ' ');
                    let piece = o.entries[i].1.to_graphql_text();
                    out.append(piece.as_str());
                    proof {
                        assert(m.take(i + 1).drop_last() =~= m.take(i as int));
                        assert(m.take(i + 1).last() == m[i as int]);
                        if i == 0 {
                            assert(gobj_texts(m.take(1)) == gentry_text(m[0]));
                        }
                        assert(gentry_text(m[i as int]) == m[i as int].0 + seq![':', ' ']
                            + gtext_of(m[i as int].1));
                        assert(out@ =~= seq!['{'] + gobj_texts(m.take(i + 1)));
                    }
                    i = i + 1;
                }
                push_char(&mut out, '}');
                proof {
                    assert(m.take(m.len() as int) =~= m);
                    assert(out@ =~= gtext_of(self@));
                }
                out
            },
        }
    }

    /// The plain-text reading of the value at a path: a string stands as
    /// itself, anything else as its rendered JSON text; nothing when the
    /// path reaches nothing.
    pub fn path_string_value(&self, path: &[String]) -> (r: Option<String>)
        ensures
            match Value::get_path_spec(self@, path_models(path@)) {
                Some(v) => r matches Some(t) && t@ == (match v {
                    JVal::Str(s) => s,
                    _ => text_of(v),
                }),
                None => r is None,
            },
    {
        match self.get_path(path) {
            Some(v) => match v {
                Value::Str(s) => Some(s.clone()),
                other => Some(other.to_text()),
            },
            None => None,
        }
    }

    /// The GraphQL reading of the value at a path; nothing when the path
    /// reaches nothing.
    pub fn path_graphql_value(&self, path: &[String]) -> (r: Option<String>)
        ensures
            match Value::get_path_spec(self@, path_models(path@)) {
                Some(v) => r matches Some(t) && t@ == gtext_of(v),
                None => r is None,
            },
    {
        match self.get_path(path) {
            Some(v) => Some(v.to_graphql_text()),
            None => None,
        }
    }
}

impl PathString for Value {
    fn path_string(&self, path: &[String]) -> Option<String> {
        self.path_string_value(path)
    }
}

impl PathGraphql for Value {
    fn path_graphql(&self, path: &[String]) -> Option<String> {
        self.path_graphql_value(path)
    }
}

} // verus!
