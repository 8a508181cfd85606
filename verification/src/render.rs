//! How the `rob` tool shows a JSON value: one line per value, nested values
//! indented by two more spaces, keyed lines written `key :: value`, list
//! items keyed by their position and object entries by their key.
use crate::json::{lemma_view_entries, lemma_view_values, JsonNumber, JsonValue, JsonView, NumberView};
use crate::rpc::owned;
use vstd::prelude::*;

verus! {

/// An I/O error as the `rob` tool reports it: the error kind's number and
/// name, and the error's message.
#[derive(Debug, PartialEq)]
pub struct IoErrorSerde {
    pub code: i32,
    pub kind: String,
    pub message: String,
}

/// The character of decimal digit `d`.
pub open spec fn digit_char(d: int) -> char {
    ('0' as int + d) as char
}

/// The decimal digits of `n`.
pub open spec fn decimal(n: nat) -> Seq<char>
    decreases n,
{
    if n < 10 {
        seq![digit_char(n as int)]
    } else {
        decimal(n / 10).push(digit_char((n % 10) as int))
    }
}

/// `n` spaces.
pub open spec fn spaces(n: nat) -> Seq<char> {
    Seq::new(n, |i: int| ' ')
}

/// The text of a number.
pub open spec fn number_text(n: NumberView) -> Seq<char> {
    match n {
        NumberView::PosInt(u) => decimal(u as nat),
        NumberView::NegInt(i) => if i < 0 {
            seq!['-'] + decimal((-(i as int)) as nat)
        } else {
            decimal(i as nat)
        },
        NumberView::Float(t) => t,
    }
}

/// The start of a line: the indentation, then the key if there is one.
pub open spec fn line_head(pad: Seq<char>, key: Option<Seq<char>>) -> Seq<char> {
    match key {
        Some(k) => pad + k + " :: "@,
        None => pad,
    }
}

/// The lines that show `v` at indentation `pad`, under `key` if given.
pub open spec fn render(v: JsonView, pad: Seq<char>, key: Option<Seq<char>>) -> Seq<Seq<char>>
    decreases v,
{
    let head = line_head(pad, key);
    match v {
        JsonView::Null => seq![head + "Null"@],
        JsonView::Bool(b) => seq![head + if b { "true"@ } else { "false"@ }],
        JsonView::Number(n) => seq![head + number_text(n)],
        JsonView::String(s) => seq![head + "\""@ + s + "\""@],
        JsonView::Array(items) => seq![head + "List:"@] + render_items(items, pad + "  "@),
        JsonView::Object(entries) => seq![head + "Map:"@] + render_entries(entries, pad + "  "@),
    }
}

/// The lines of list items, each keyed by its position.
pub open spec fn render_items(items: Seq<JsonView>, pad: Seq<char>) -> Seq<Seq<char>>
    decreases items,
{
    if items.len() == 0 {
        Seq::empty()
    } else {
        render_items(items.drop_last(), pad) + render(items.last(), pad, Some(decimal((items.len() - 1) as nat)))
    }
}

/// The lines of object entries, each keyed by its key.
pub open spec fn render_entries(entries: Seq<(Seq<char>, JsonView)>, pad: Seq<char>) -> Seq<Seq<char>>
    decreases entries,
{
    if entries.len() == 0 {
        Seq::empty()
    } else {
        render_entries(entries.drop_last(), pad) + render(entries.last().1, pad, Some(entries.last().0))
    }
}

fn digit_str(d: u64) -> (s: &'static str)
    requires
        d < 10,
    ensures
        s@ == seq![digit_char(d as int)],
{
    proof {
        reveal_strlit("0");
        reveal_strlit("1");
        reveal_strlit("2");
        reveal_strlit("3");
        reveal_strlit("4");
        reveal_strlit("5");
        reveal_strlit("6");
        reveal_strlit("7");
        reveal_strlit("8");
        reveal_strlit("9");
    }
    let s = if d == 0 {
        "0"
    } else if d == 1 {
        "1"
    } else if d == 2 {
        "2"
    } else if d == 3 {
        "3"
    } else if d == 4 {
        "4"
    } else if d == 5 {
        "5"
    } else if d == 6 {
        "6"
    } else if d == 7 {
        "7"
    } else if d == 8 {
        "8"
    } else {
        "9"
    };
    assert(s@ =~= seq![digit_char(d as int)]);
    s
}

/// The decimal text of `n`.
pub fn decimal_text(n: u64) -> (s: String)
    ensures
        s@ == decimal(n as nat),
    decreases n,
{
    if n < 10 {
        owned(digit_str(n))
    } else {
        let s = decimal_text(n / 10).concat(digit_str(n % 10));
        proof {
            assert(s@ =~= decimal(n as nat));
        }
        s
    }
}

fn number_string(n: &JsonNumber) -> (s: String)
    ensures
        s@ == number_text(n@),
{
    match n {
        JsonNumber::PosInt(u) => decimal_text(*u),
        JsonNumber::NegInt(i) => {
            if *i < 0 {
                let magnitude: u64 = if *i == -9223372036854775807i64 - 1 {
                    9223372036854775808u64
                } else {
                    (-*i) as u64
                };
                let s = owned("-").concat(decimal_text(magnitude).as_str());
                proof {
                    reveal_strlit("-");
                    assert(s@ =~= number_text(n@));
                }
                s
            } else {
                decimal_text(*i as u64)
            }
        },
        JsonNumber::Float(t) => t.clone(),
    }
}

/// The texts of a sequence of lines.
pub open spec fn lines_view(s: Seq<String>) -> Seq<Seq<char>> {
    s.map_values(|l: String| l@)
}

/// The model of an optional key.
pub open spec fn key_view(key: Option<&str>) -> Option<Seq<char>> {
    match key {
        Some(k) => Some(k@),
        None => None,
    }
}

proof fn lemma_push_line(s: Seq<String>, l: String)
    ensures
        lines_view(s.push(l)) == lines_view(s).push(l@),
{
    assert(lines_view(s.push(l)) =~= lines_view(s).push(l@));
}

fn push_line(out: &mut Vec<String>, line: String)
    ensures
        lines_view(final(out)@) == lines_view(old(out)@).push(line@),
{
    let ghost before = out@;
    out.push(line);
    proof {
        lemma_push_line(before, line);
    }
}

/// Appends the lines that show `v` at indentation `pad`, under `key`.
fn render_into(v: &JsonValue, pad: &String, key: Option<&str>, out: &mut Vec<String>)
    ensures
        lines_view(final(out)@) == lines_view(old(out)@) + render(v@, pad@, key_view(key)),
    decreases v,
{
    let ghost base = lines_view(out@);
    let head = match key {
        Some(k) => pad.clone().concat(k).concat(" :: "),
        None => pad.clone(),
    };
    proof {
        assert(head@ == line_head(pad@, key_view(key)));
    }
    match v {
        JsonValue::Null => {
            push_line(out, head.concat("Null"));
        },
        JsonValue::Bool(b) => {
            if *b {
                push_line(out, head.concat("true"));
            } else {
                push_line(out, head.concat("false"));
            }
        },
        JsonValue::Number(n) => {
            let text = number_string(n);
            push_line(out, head.concat(text.as_str()));
        },
        JsonValue::String(text) => {
            push_line(out, head.concat("\"").concat(text.as_str()).concat("\""));
        },
        JsonValue::Array(items) => {
            push_line(out, head.concat("List:"));
            let child = pad.clone().concat("  ");
            let ghost vs = crate::json::view_values(items@);
            proof {
                lemma_view_values(items@);
                assert(vs.take(0) =~= Seq::<JsonView>::empty());
            }
            let mut i: usize = 0;
            while i < items.len()
                invariant
                    i <= items@.len(),
                    *v is Array,
                    (*v)->Array_0 == *items,
                    vs == crate::json::view_values(items@),
                    vs.len() == items@.len(),
                    forall|j: int| 0 <= j < items@.len() ==> #[trigger] vs[j] == items@[j]@,
                    lines_view(out@) == base + seq![head@ + "List:"@] + render_items(vs.take(i as int), child@),
                decreases items@.len() - i,
            {
                let index = decimal_text(i as u64);
                proof {
                    assert(vs.take(i + 1).drop_last() =~= vs.take(i as int));
                    assert(vs.take(i + 1).last() == items@[i as int]@);
                    assert(decreases_to!(*v => (*v)->Array_0));
                    assert(decreases_to!((*v)->Array_0 => (*v)->Array_0@));
                    assert(decreases_to!((*v)->Array_0@ => (*v)->Array_0@[i as int]));
                    assert(decreases_to!(v => items@[i as int]));
                }
                render_into(&items[i], &child, Some(index.as_str()), out);
                proof {
                    assert(render_items(vs.take(i + 1), child@) == render_items(vs.take(i as int), child@)
                        + render(items@[i as int]@, child@, Some(decimal(i as nat))));
                }
                i = i + 1;
            }
            proof {
                assert(vs.take(i as int) =~= vs);
                assert(v@ == JsonView::Array(vs));
            }
        },
        JsonValue::Object(entries) => {
            push_line(out, head.concat("Map:"));
            let child = pad.clone().concat("  ");
            let ghost es = crate::json::view_entries(entries@);
            proof {
                lemma_view_entries(entries@);
                assert(es.take(0) =~= Seq::<(Seq<char>, JsonView)>::empty());
            }
            let mut i: usize = 0;
            while i < entries.len()
                invariant
                    i <= entries@.len(),
                    *v is Object,
                    (*v)->Object_0 == *entries,
                    es == crate::json::view_entries(entries@),
                    es.len() == entries@.len(),
                    forall|j: int| 0 <= j < entries@.len() ==> #[trigger] es[j] == (entries@[j].0@, entries@[j].1@),
                    lines_view(out@) == base + seq![head@ + "Map:"@] + render_entries(es.take(i as int), child@),
                decreases entries@.len() - i,
            {
                proof {
                    assert(es.take(i + 1).drop_last() =~= es.take(i as int));
                    assert(es.take(i + 1).last() == es[i as int]);
                    assert(decreases_to!(*v => (*v)->Object_0));
                    assert(decreases_to!((*v)->Object_0 => (*v)->Object_0@));
                    assert(decreases_to!((*v)->Object_0@ => (*v)->Object_0@[i as int]));
                    assert(decreases_to!((*v)->Object_0@[i as int] => (*v)->Object_0@[i as int].1));
                    assert(decreases_to!(v => entries@[i as int].1));
                }
                render_into(&entries[i].1, &child, Some(entries[i].0.as_str()), out);
                proof {
                    assert(render_entries(es.take(i + 1), child@) == render_entries(es.take(i as int), child@)
                        + render(entries@[i as int].1@, child@, Some(entries@[i as int].0@)));
                }
                i = i + 1;
            }
            proof {
                assert(es.take(i as int) =~= es);
                assert(v@ == JsonView::Object(es));
            }
        },
    }
}

/// The lines that show `value`, indented by `indent` spaces and under `key`
/// if one is given.
pub fn print_value(value: &JsonValue, indent: usize, key: Option<&str>) -> (lines: Vec<String>)
    ensures
        lines_view(lines@) == render(value@, spaces(indent as nat), key_view(key)),
{
    let mut pad = String::new();
    let mut i: usize = 0;
    while i < indent
        invariant
            i <= indent,
            pad@ == spaces(i as nat),
        decreases indent - i,
    {
        pad = pad.concat(" ");
        proof {
            reveal_strlit(" ");
            assert(pad@ =~= spaces((i + 1) as nat));
        }
        i = i + 1;
    }
    let mut lines: Vec<String> = Vec::new();
    proof {
        assert(lines_view(lines@) =~= Seq::<Seq<char>>::empty());
    }
    render_into(value, &pad, key, &mut lines);
    proof {
        assert(Seq::<Seq<char>>::empty() + render(value@, pad@, key_view(key)) =~= render(value@, pad@, key_view(key)));
    }
    lines
}

} // verus!
