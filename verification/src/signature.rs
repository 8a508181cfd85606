//! The `rob` tool's argument signatures: a compact type string such as
//! `{s(i)}` that says how to build a JSON value from command-line words.
//!
//! `s` takes a word as a string, `i` takes a word as a 64-bit integer, `n` is
//! `null`, `{ ... }` builds an object whose every entry takes a word as its
//! key and then a value, and `( ... )` builds a list.
use crate::json::{int_view, lemma_view_entries, lemma_view_values, view_entries, view_values, JsonNumber, JsonValue, JsonView};
use crate::rpc::owned;
use vstd::prelude::*;
use vstd::string::StrSliceExecFns;

verus! {

broadcast use vstd::seq_lib::group_seq_properties;

/// An ASCII decimal digit.
pub open spec fn is_digit(c: char) -> bool {
    '0' <= c && c <= '9'
}

/// The number written by a string of decimal digits.
pub open spec fn digits_value(d: Seq<char>) -> int
    decreases d.len(),
{
    if d.len() == 0 {
        0
    } else {
        digits_value(d.drop_last()) * 10 + (d.last() as int - '0' as int)
    }
}

/// The digits of a word: what follows its sign, if it has one.
pub open spec fn digits_part(s: Seq<char>) -> Seq<char> {
    if s.len() > 0 && (s[0] == '-' || s[0] == '+') {
        s.skip(1)
    } else {
        s
    }
}

/// Every character is a decimal digit.
pub open spec fn all_digits(d: Seq<char>) -> bool {
    forall|i: int| 0 <= i < d.len() ==> is_digit(#[trigger] d[i])
}

/// The signed 64-bit integer a word writes: an optional `+` or `-` and at
/// least one decimal digit, with a value in range.
pub open spec fn parse_int(s: Seq<char>) -> Option<int> {
    let d = digits_part(s);
    let v = if s.len() > 0 && s[0] == '-' {
        -digits_value(d)
    } else {
        digits_value(d)
    };
    if d.len() == 0 || !all_digits(d) {
        None
    } else if i64::MIN <= v <= i64::MAX {
        Some(v)
    } else {
        None
    }
}

/// The position of key `k` among object entries, or -1.
pub open spec fn key_position(entries: Seq<(Seq<char>, JsonView)>, k: Seq<char>) -> int
    decreases entries.len(),
{
    if entries.len() == 0 {
        -1
    } else if entries.last().0 == k {
        entries.len() - 1
    } else {
        key_position(entries.drop_last(), k)
    }
}

/// An object with `k` set to `v`: the entry for `k` is replaced if there is
/// one, added at the end otherwise.
pub open spec fn insert_entry(entries: Seq<(Seq<char>, JsonView)>, k: Seq<char>, v: JsonView) -> Seq<(Seq<char>, JsonView)> {
    let i = key_position(entries, k);
    if i >= 0 {
        entries.update(i, (k, v))
    } else {
        entries.push((k, v))
    }
}

/// Parsing the signature from position `p` with the words from position
/// `a`: the value, and where the signature and the words continue (the
/// third component is the position of the first word not yet used; `n`
/// uses no word). An object `{ ... }` reads its entries as `parse_entries` says: a
/// key word, then a value, and a list right after a value extends that
/// entry, so `{s(i)}` with `profile hello 42` gives
/// `{"profile": ["hello", 42]}`.
pub open spec fn parse_at(sig: Seq<char>, p: int, args: Seq<Seq<char>>, a: int) -> Result<(JsonView, int, int), Seq<char>>
    decreases sig.len() - p, 0int,
{
    if p < 0 || p >= sig.len() {
        Err("unexpected end of signature"@)
    } else {
        let c = sig[p];
        if c == 's' {
            if 0 <= a < args.len() {
                Ok((JsonView::String(args[a]), p + 1, a + 1))
            } else {
                Err("expected string argument"@)
            }
        } else if c == 'i' {
            if 0 <= a < args.len() {
                match parse_int(args[a]) {
                    Some(n) => Ok((int_view(n), p + 1, a + 1)),
                    None => Err("invalid integer: "@ + args[a]),
                }
            } else {
                Err("expected integer argument"@)
            }
        } else if c == '{' {
            parse_entries(sig, p + 1, args, a, Seq::empty(), None)
        } else if c == '(' {
            parse_items(sig, p + 1, args, a, Seq::empty())
        } else if c == 'n' {
            Ok((JsonView::Null, p + 1, a))
        } else {
            Err("unexpected char in signature: "@ + seq![c])
        }
    }
}

/// A value extended by the items of a list: the items are appended if the
/// value is already an extended list, otherwise the value becomes the first
/// item of a new list followed by them.
pub open spec fn extend_value(old: JsonView, items: Seq<JsonView>, extended: bool) -> JsonView {
    if extended && old is Array {
        JsonView::Array(old->Array_0 + items)
    } else {
        JsonView::Array(seq![old] + items)
    }
}

/// The object entries with the value of key `k` extended by `items`.
pub open spec fn extend_entry(
    entries: Seq<(Seq<char>, JsonView)>,
    k: Seq<char>,
    items: Seq<JsonView>,
    extended: bool,
) -> Seq<(Seq<char>, JsonView)> {
    let i = key_position(entries, k);
    if i >= 0 {
        entries.update(i, (k, extend_value(entries[i].1, items, extended)))
    } else {
        entries
    }
}

/// The items of a list value; any other value is a list of itself.
pub open spec fn list_items(v: JsonView) -> Seq<JsonView> {
    match v {
        JsonView::Array(items) => items,
        _ => seq![v],
    }
}

/// Parsing the rest of an object whose entries so far are `acc`; `open` is
/// the key of the entry read last, and whether a list has extended it yet.
///
/// Each entry takes a word as its key and then a value. A list, `( ... )`,
/// that comes right after an entry's value takes no key: it extends that
/// entry, whose value becomes a list of the value followed by the list's
/// items (a further list appends its items). So `{s(i)}` with the words
/// `profile hello 42` gives `{"profile": ["hello", 42]}`, and `{ii}` with
/// `a 10 b 32` gives `{"a": 10, "b": 32}`. The object ends at `}` or at the
/// end of the signature.
pub open spec fn parse_entries(
    sig: Seq<char>,
    p: int,
    args: Seq<Seq<char>>,
    a: int,
    acc: Seq<(Seq<char>, JsonView)>,
    open: Option<(Seq<char>, bool)>,
) -> Result<(JsonView, int, int), Seq<char>>
    decreases sig.len() - p, 1int,
{
    if p < 0 || p >= sig.len() {
        Ok((JsonView::Object(acc), p, a))
    } else if sig[p] == '}' {
        Ok((JsonView::Object(acc), p + 1, a))
    } else if sig[p] == '(' && open is Some {
        match parse_at(sig, p, args, a) {
            Ok((v, p2, a2)) => if p < p2 <= sig.len() {
                match open {
                    Some((k, extended)) => parse_entries(
                        sig,
                        p2,
                        args,
                        a2,
                        extend_entry(acc, k, list_items(v), extended),
                        Some((k, true)),
                    ),
                    None => Err(Seq::empty()),
                }
            } else {
                Err(Seq::empty())
            },
            Err(e) => Err(e),
        }
    } else if !(0 <= a < args.len()) {
        Err("expected map key"@)
    } else {
        match parse_at(sig, p, args, a + 1) {
            Ok((v, p2, a2)) => if p < p2 <= sig.len() {
                parse_entries(sig, p2, args, a2, insert_entry(acc, args[a], v), Some((args[a], false)))
            } else {
                Err(Seq::empty())
            },
            Err(e) => Err(e),
        }
    }
}

/// Parsing the rest of a list whose items so far are `acc`. The list ends at
/// `)` or at the end of the signature.
pub open spec fn parse_items(
    sig: Seq<char>,
    p: int,
    args: Seq<Seq<char>>,
    a: int,
    acc: Seq<JsonView>,
) -> Result<(JsonView, int, int), Seq<char>>
    decreases sig.len() - p, 1int,
{
    if p < 0 || p >= sig.len() {
        Ok((JsonView::Array(acc), p, a))
    } else if sig[p] == ')' {
        Ok((JsonView::Array(acc), p + 1, a))
    } else {
        match parse_at(sig, p, args, a) {
            Ok((v, p2, a2)) => if p < p2 <= sig.len() {
                parse_items(sig, p2, args, a2, acc.push(v))
            } else {
                Err(Seq::empty())
            },
            Err(e) => Err(e),
        }
    }
}

/// The value a signature gives for the words `args`, with the number of
/// words it takes from the front of `args`.
pub open spec fn parse_signature_spec(sig: Seq<char>, args: Seq<Seq<char>>) -> Result<(JsonView, int), Seq<char>> {
    match parse_at(sig, 0, args, 0) {
        Ok((v, _, used)) => Ok((v, used)),
        Err(e) => Err(e),
    }
}

/// The model of the entry an object parse may still extend.
pub open spec fn open_view(open: Option<(String, bool)>) -> Option<(Seq<char>, bool)> {
    match open {
        Some((k, e)) => Some((k@, e)),
        None => None,
    }
}

/// The models of a sequence of words.
pub open spec fn words_view(args: Seq<String>) -> Seq<Seq<char>> {
    args.map_values(|s: String| s@)
}

/// A successful parse moves forward in the signature and does not move back
/// in the words.
pub proof fn lemma_parse_advances(sig: Seq<char>, p: int, args: Seq<Seq<char>>, a: int)
    requires
        0 <= p <= sig.len(),
        0 <= a <= args.len(),
    ensures
        parse_at(sig, p, args, a) matches Ok((_, p2, a2)) ==> p < p2 <= sig.len() && a <= a2 <= args.len(),
    decreases sig.len() - p, 0int,
{
    if p < sig.len() {
        let c = sig[p];
        if c == '{' {
            lemma_entries_advance(sig, p + 1, args, a, Seq::empty(), None);
        } else if c == '(' {
            lemma_items_advance(sig, p + 1, args, a, Seq::empty());
        }
    }
}

proof fn lemma_entries_advance(
    sig: Seq<char>,
    p: int,
    args: Seq<Seq<char>>,
    a: int,
    acc: Seq<(Seq<char>, JsonView)>,
    open: Option<(Seq<char>, bool)>,
)
    requires
        0 <= p <= sig.len(),
        0 <= a <= args.len(),
    ensures
        parse_entries(sig, p, args, a, acc, open) matches Ok((_, p2, a2)) ==> p <= p2 <= sig.len() && a <= a2 <= args.len(),
    decreases sig.len() - p, 1int,
{
    if p < sig.len() && sig[p] != '}' {
        if sig[p] == '(' && open is Some {
            lemma_parse_advances(sig, p, args, a);
            match parse_at(sig, p, args, a) {
                Ok((v, p2, a2)) => {
                    if p < p2 <= sig.len() {
                        match open {
                            Some((k, extended)) => {
                                lemma_entries_advance(
                                    sig,
                                    p2,
                                    args,
                                    a2,
                                    extend_entry(acc, k, list_items(v), extended),
                                    Some((k, true)),
                                );
                            },
                            None => {},
                        }
                    }
                },
                Err(_) => {},
            }
        } else if a < args.len() {
            lemma_parse_advances(sig, p, args, a + 1);
            match parse_at(sig, p, args, a + 1) {
                Ok((v, p2, a2)) => {
                    if p < p2 <= sig.len() {
                        lemma_entries_advance(sig, p2, args, a2, insert_entry(acc, args[a], v), Some((args[a], false)));
                    }
                },
                Err(_) => {},
            }
        }
    }
}

proof fn lemma_items_chain(
    sig: Seq<char>,
    args: Seq<Seq<char>>,
    starts: Seq<int>,
    words: Seq<int>,
    values: Seq<JsonView>,
    k: int,
)
    requires
        starts.len() == values.len() + 1,
        words.len() == values.len() + 1,
        0 <= k <= values.len(),
        0 <= starts[k],
        0 <= words[k] <= args.len(),
        forall|i: int|
            k <= i < values.len() ==> starts[i] < sig.len() && sig[starts[i]] != ')' && #[trigger] parse_at(
                sig,
                starts[i],
                args,
                words[i],
            ) == Ok::<(JsonView, int, int), Seq<char>>((values[i], starts[i + 1], words[i + 1])),
        starts[values.len() as int] < sig.len(),
        sig[starts[values.len() as int]] == ')',
    ensures
        parse_items(sig, starts[k], args, words[k], values.take(k)) == Ok::<(JsonView, int, int), Seq<char>>(
            (JsonView::Array(values), starts[values.len() as int] + 1, words[values.len() as int]),
        ),
    decreases values.len() - k,
{
    if k == values.len() {
        assert(values.take(k) =~= values);
    } else {
        assert(parse_at(sig, starts[k], args, words[k]) == Ok::<(JsonView, int, int), Seq<char>>(
            (values[k], starts[k + 1], words[k + 1]),
        ));
        lemma_parse_advances(sig, starts[k], args, words[k]);
        assert(values.take(k).push(values[k]) =~= values.take(k + 1));
        lemma_items_chain(sig, args, starts, words, values, k + 1);
    }
}

/// A list signature gives one item per element signature, in order, and a
/// nested list is one item: when the element signatures after the `(` at
/// `p` start at `starts[0]`, `starts[1]`, ... and each parses, with the words
/// from `words[i]` on, to `values[i]` and ends where the next begins, and a
/// `)` follows the last, the list is exactly `values`, and it ends after
/// that `)` having used the words up to the last element's end.
pub proof fn law_list_item_per_element(
    sig: Seq<char>,
    p: int,
    args: Seq<Seq<char>>,
    starts: Seq<int>,
    words: Seq<int>,
    values: Seq<JsonView>,
)
    requires
        0 <= p < sig.len(),
        sig[p] == '(',
        starts.len() == values.len() + 1,
        words.len() == values.len() + 1,
        starts[0] == p + 1,
        0 <= words[0] <= args.len(),
        forall|i: int|
            0 <= i < values.len() ==> starts[i] < sig.len() && sig[starts[i]] != ')' && #[trigger] parse_at(
                sig,
                starts[i],
                args,
                words[i],
            ) == Ok::<(JsonView, int, int), Seq<char>>((values[i], starts[i + 1], words[i + 1])),
        starts[values.len() as int] < sig.len(),
        sig[starts[values.len() as int]] == ')',
    ensures
        parse_at(sig, p, args, words[0]) == Ok::<(JsonView, int, int), Seq<char>>(
            (JsonView::Array(values), starts[values.len() as int] + 1, words[values.len() as int]),
        ),
{
    lemma_items_chain(sig, args, starts, words, values, 0);
    assert(values.take(0) =~= Seq::<JsonView>::empty());
}

proof fn lemma_items_advance(sig: Seq<char>, p: int, args: Seq<Seq<char>>, a: int, acc: Seq<JsonView>)
    requires
        0 <= p <= sig.len(),
        0 <= a <= args.len(),
    ensures
        parse_items(sig, p, args, a, acc) matches Ok((_, p2, a2)) ==> p <= p2 <= sig.len() && a <= a2 <= args.len(),
    decreases sig.len() - p, 1int,
{
    if p < sig.len() && sig[p] != ')' {
        lemma_parse_advances(sig, p, args, a);
        match parse_at(sig, p, args, a) {
            Ok((v, p2, a2)) => {
                if p < p2 <= sig.len() {
                    lemma_items_advance(sig, p2, args, a2, acc.push(v));
                }
            },
            Err(_) => {},
        }
    }
}

proof fn lemma_digits_step(d: Seq<char>, i: int)
    requires
        0 <= i < d.len(),
    ensures
        digits_value(d.take(i + 1)) == digits_value(d.take(i)) * 10 + (d[i] as int - '0' as int),
{
    assert(d.take(i + 1).drop_last() =~= d.take(i));
}

proof fn lemma_digits_grow(d: Seq<char>, i: int)
    requires
        0 <= i <= d.len(),
        forall|j: int| 0 <= j < d.len() ==> is_digit(#[trigger] d[j]),
    ensures
        digits_value(d.take(i)) <= digits_value(d),
        0 <= digits_value(d.take(i)),
    decreases d.len() - i,
{
    if i < d.len() {
        lemma_digits_step(d, i);
        lemma_digits_grow(d, i + 1);
        assert(is_digit(d[i]));
    } else {
        assert(d.take(i) =~= d);
        lemma_digits_nonneg(d);
    }
}

proof fn lemma_digits_nonneg(d: Seq<char>)
    requires
        forall|j: int| 0 <= j < d.len() ==> is_digit(#[trigger] d[j]),
    ensures
        0 <= digits_value(d),
    decreases d.len(),
{
    if d.len() > 0 {
        assert(is_digit(d[d.len() - 1]));
        lemma_digits_nonneg(d.drop_last());
    }
}

/// The characters of a string.
pub fn chars_of(s: &str) -> (v: Vec<char>)
    ensures
        v@ == s@,
{
    let n = s.unicode_len();
    let mut v: Vec<char> = Vec::new();
    let mut i: usize = 0;
    while i < n
        invariant
            i <= n,
            n == s@.len(),
            v@ == s@.take(i as int),
        decreases n - i,
    {
        v.push(s.get_char(i));
        proof {
            assert(s@.take(i + 1) =~= s@.take(i as int).push(s@[i as int]));
        }
        i = i + 1;
    }
    proof {
        assert(s@.take(i as int) =~= s@);
    }
    v
}

/// Reads a word as a signed 64-bit integer.
pub fn parse_i64(word: &str) -> (r: Option<i64>)
    ensures
        match r {
            Some(n) => parse_int(word@) == Some(n as int),
            None => parse_int(word@) is None,
        },
{
    let s = chars_of(word);
    let n = s.len();
    if n == 0 {
        return None;
    }
    let neg = s[0] == '-';
    let start: usize = if s[0] == '-' || s[0] == '+' {
        1
    } else {
        0
    };
    let ghost d = digits_part(word@);
    proof {
        assert(d =~= s@.skip(start as int));
    }
    if start == n {
        return None;
    }
    let mut mag: u64 = 0;
    let mut overflow = false;
    let mut i: usize = start;
    while i < n
        invariant
            start <= i <= n,
            n == s@.len(),
            d == s@.skip(start as int),
            d == digits_part(word@),
            neg <==> (word@.len() > 0 && word@[0] == '-'),
            forall|j: int| 0 <= j < i - start ==> is_digit(#[trigger] d[j]),
            !overflow ==> mag as int == digits_value(d.take(i - start)),
            overflow ==> digits_value(d.take(i - start)) > u64::MAX,
        decreases n - i,
    {
        let c = s[i];
        proof {
            assert(d[i - start] == c);
        }
        if !('0' <= c && c <= '9') {
            proof {
                assert(!all_digits(d));
            }
            return None;
        }
        let digit = (c as u32 - '0' as u32) as u64;
        proof {
            lemma_digits_step(d, i - start);
            lemma_digits_nonneg(d.take(i - start));
        }
        if !overflow {
            match mag.checked_mul(10) {
                Some(m) => match m.checked_add(digit) {
                    Some(x) => {
                        mag = x;
                    },
                    None => {
                        overflow = true;
                    },
                },
                None => {
                    overflow = true;
                },
            }
        }
        i = i + 1;
    }
    proof {
        assert(d.take(i - start) =~= d);
        assert(all_digits(d));
    }
    if overflow {
        return None;
    }
    if neg {
        if mag <= 9223372036854775808u64 {
            if mag == 9223372036854775808u64 {
                Some(-9223372036854775807i64 - 1)
            } else {
                Some(-(mag as i64))
            }
        } else {
            None
        }
    } else {
        if mag <= 9223372036854775807u64 {
            Some(mag as i64)
        } else {
            None
        }
    }
}

proof fn lemma_key_position_tail(s: Seq<(Seq<char>, JsonView)>, k: Seq<char>, i: int)
    requires
        0 <= i <= s.len(),
        forall|j: int| i <= j < s.len() ==> (#[trigger] s[j]).0 != k,
    ensures
        key_position(s, k) == key_position(s.take(i), k),
    decreases s.len() - i,
{
    if i < s.len() {
        assert(s.drop_last().take(i) =~= s.take(i));
        lemma_key_position_tail(s.drop_last(), k, i);
    } else {
        assert(s.take(i) =~= s);
    }
}

proof fn lemma_key_position_range(s: Seq<(Seq<char>, JsonView)>, k: Seq<char>)
    ensures
        -1 <= key_position(s, k) < s.len(),
        key_position(s, k) >= 0 ==> s[key_position(s, k)].0 == k,
    decreases s.len(),
{
    if s.len() > 0 {
        lemma_key_position_range(s.drop_last(), k);
    }
}

/// Sets `key` to `value` in an object's entries.
fn object_insert(entries: &mut Vec<(String, JsonValue)>, key: String, value: JsonValue)
    ensures
        view_entries(final(entries)@) == insert_entry(view_entries(old(entries)@), key@, value@),
{
    let ghost before = view_entries(entries@);
    proof {
        lemma_view_entries(entries@);
    }
    let mut i = entries.len();
    while i > 0
        invariant
            i <= entries@.len(),
            entries@ == old(entries)@,
            before == view_entries(entries@),
            before.len() == entries@.len(),
            forall|j: int| 0 <= j < entries@.len() ==> #[trigger] before[j] == (entries@[j].0@, entries@[j].1@),
            forall|j: int| i <= j < entries@.len() ==> (#[trigger] before[j]).0 != key@,
        decreases i,
    {
        if entries[i - 1].0 == key {
            proof {
                lemma_key_position_tail(before, key@, i as int);
                assert(before.take(i as int).last().0 == key@);
                assert(key_position(before, key@) == i - 1);
            }
            let ghost kv = key@;
            let ghost vv = value@;
            let ghost old_entries = entries@;
            entries.set(i - 1, (key, value));
            proof {
                lemma_view_entries(entries@);
                assert(view_entries(entries@) =~= before.update(i - 1, (kv, vv)));
                assert(insert_entry(before, kv, vv) == before.update(i - 1, (kv, vv)));
                assert(view_entries(entries@) == insert_entry(before, kv, vv));
            }
            return;
        }
        i = i - 1;
    }
    proof {
        lemma_key_position_tail(before, key@, 0);
        assert(key_position(before, key@) == -1);
    }
    let ghost old_entries = entries@;
    let ghost kv = key@;
    let ghost vv = value@;
    entries.push((key, value));
    proof {
        assert(entries@.drop_last() =~= old_entries);
    }
}

proof fn lemma_view_values_append(a: Seq<JsonValue>, b: Seq<JsonValue>)
    ensures
        view_values(a + b) == view_values(a) + view_values(b),
{
    lemma_view_values(a);
    lemma_view_values(b);
    lemma_view_values(a + b);
    assert(view_values(a + b) =~= view_values(a) + view_values(b));
}

/// The value `old` extended by the list items `items`.
fn extended_value(old: JsonValue, items: Vec<JsonValue>, extended: bool) -> (v: JsonValue)
    ensures
        v@ == extend_value(old@, view_values(items@), extended),
{
    let ghost ov = old@;
    let ghost is = items@;
    let mut items = items;
    let mut front: Vec<JsonValue> = Vec::new();
    let ghost prefix: Seq<JsonView>;
    let keep = extended && match &old {
        JsonValue::Array(_) => true,
        _ => false,
    };
    if keep {
        match old {
            JsonValue::Array(f) => {
                front = f;
            },
            _ => {},
        }
        proof {
            prefix = ov->Array_0;
            assert(view_values(front@) == prefix);
        }
    } else {
        front.push(old);
        proof {
            prefix = seq![ov];
            assert(front@.drop_last() =~= Seq::<JsonValue>::empty());
            assert(view_values(front@) == view_values(Seq::<JsonValue>::empty()).push(ov));
            assert(view_values(front@) =~= prefix);
        }
    }
    let ghost fs = front@;
    front.append(&mut items);
    proof {
        lemma_view_values_append(fs, is);
        assert(front@ == fs + is);
    }
    JsonValue::Array(front)
}

/// Extends the value of `key` among an object's entries by list items.
fn object_extend(entries: &mut Vec<(String, JsonValue)>, key: &String, items: Vec<JsonValue>, extended: bool)
    ensures
        view_entries(final(entries)@) == extend_entry(view_entries(old(entries)@), key@, view_values(items@), extended),
{
    let ghost before = view_entries(entries@);
    let ghost iv = view_values(items@);
    proof {
        lemma_view_entries(entries@);
    }
    let mut i = entries.len();
    while i > 0
        invariant
            i <= entries@.len(),
            entries@ == old(entries)@,
            before == view_entries(entries@),
            before.len() == entries@.len(),
            forall|j: int| 0 <= j < entries@.len() ==> #[trigger] before[j] == (entries@[j].0@, entries@[j].1@),
            forall|j: int| i <= j < entries@.len() ==> (#[trigger] before[j]).0 != key@,
        decreases i,
    {
        if entries[i - 1].0 == *key {
            proof {
                lemma_key_position_tail(before, key@, i as int);
                assert(before.take(i as int).last().0 == key@);
                assert(key_position(before, key@) == i - 1);
            }
            let (k, old_value) = entries.remove(i - 1);
            let value = extended_value(old_value, items, extended);
            let ghost kv = k@;
            let ghost vv = value@;
            entries.insert(i - 1, (k, value));
            proof {
                lemma_view_entries(entries@);
                assert(view_entries(entries@) =~= before.update(i - 1, (kv, vv)));
            }
            return;
        }
        i = i - 1;
    }
    proof {
        lemma_key_position_tail(before, key@, 0);
        assert(key_position(before, key@) == -1);
    }
}

/// Parses the value that starts at position `p` of the signature, taking
/// words from position `a`.
fn parse_value(text: &str, sig: &Vec<char>, p: usize, args: &[String], a: usize) -> (r: Result<(JsonValue, usize, usize), String>)
    requires
        sig@ == text@,
        p <= sig@.len(),
        a <= args@.len(),
    ensures
        match (r, parse_at(sig@, p as int, words_view(args@), a as int)) {
            (Ok((v, p2, a2)), Ok((sv, sp, sa))) => v@ == sv && p2 == sp && a2 == sa,
            (Err(e), Err(se)) => e@ == se,
            _ => false,
        },
    decreases sig@.len() - p,
{
    let ghost w = words_view(args@);
    proof {
        lemma_parse_advances(sig@, p as int, w, a as int);
    }
    if p >= sig.len() {
        return Err(owned("unexpected end of signature"));
    }
    let c = sig[p];
    if c == 's' {
        if a < args.len() {
            Ok((JsonValue::String(args[a].clone()), p + 1, a + 1))
        } else {
            Err(owned("expected string argument"))
        }
    } else if c == 'i' {
        if a < args.len() {
            match parse_i64(args[a].as_str()) {
                Some(n) => Ok((JsonValue::from_i64(n), p + 1, a + 1)),
                None => Err(owned("invalid integer: ").concat(args[a].as_str())),
            }
        } else {
            Err(owned("expected integer argument"))
        }
    } else if c == '{' {
        let mut entries: Vec<(String, JsonValue)> = Vec::new();
        let mut open: Option<(String, bool)> = None;
        let mut q: usize = p + 1;
        let mut b: usize = a;
        proof {
            assert(view_entries(entries@) =~= Seq::<(Seq<char>, JsonView)>::empty());
        }
        loop
            invariant
                sig@ == text@,
                p < q <= sig@.len(),
                b <= args@.len(),
                w == words_view(args@),
                a <= args@.len(),
                parse_at(sig@, p as int, w, a as int) == parse_entries(sig@, p + 1, w, a as int, Seq::empty(), None),
                parse_entries(sig@, q as int, w, b as int, view_entries(entries@), open_view(open)) == parse_entries(
                    sig@,
                    p + 1,
                    w,
                    a as int,
                    Seq::empty(),
                    None,
                ),
            decreases sig@.len() - q,
        {
            if q >= sig.len() {
                return Ok((JsonValue::Object(entries), q, b));
            }
            if sig[q] == '}' {
                return Ok((JsonValue::Object(entries), q + 1, b));
            }
            if sig[q] == '(' && open.is_some() {
                proof {
                    lemma_parse_advances(sig@, q as int, w, b as int);
                }
                match parse_value(text, sig, q, args, b) {
                    Ok((v, q2, b2)) => {
                        let ghost vv = v@;
                        let items: Vec<JsonValue> = match v {
                            JsonValue::Array(items) => items,
                            other => {
                                let mut one: Vec<JsonValue> = Vec::new();
                                one.push(other);
                                one
                            },
                        };
                        proof {
                            if !(vv is Array) {
                                assert(items@.drop_last() =~= Seq::<JsonValue>::empty());
                                assert(view_values(items@) == view_values(Seq::<JsonValue>::empty()).push(vv));
                            }
                            assert(view_values(items@) =~= list_items(vv));
                        }
                        let (key, extended) = match open {
                            Some(o) => o,
                            None => (String::new(), false),
                        };
                        object_extend(&mut entries, &key, items, extended);
                        open = Some((key, true));
                        q = q2;
                        b = b2;
                    },
                    Err(e) => {
                        return Err(e);
                    },
                }
            } else {
                if b >= args.len() {
                    return Err(owned("expected map key"));
                }
                proof {
                    lemma_parse_advances(sig@, q as int, w, b + 1);
                }
                let key = args[b].clone();
                match parse_value(text, sig, q, args, b + 1) {
                    Ok((v, q2, b2)) => {
                        let again = key.clone();
                        object_insert(&mut entries, key, v);
                        open = Some((again, false));
                        q = q2;
                        b = b2;
                    },
                    Err(e) => {
                        return Err(e);
                    },
                }
            }
        }
    } else if c == '(' {
        let mut items: Vec<JsonValue> = Vec::new();
        let mut q: usize = p + 1;
        let mut b: usize = a;
        proof {
            assert(view_values(items@) =~= Seq::<JsonView>::empty());
        }
        loop
            invariant
                sig@ == text@,
                p < q <= sig@.len(),
                b <= args@.len(),
                w == words_view(args@),
                a <= args@.len(),
                parse_at(sig@, p as int, w, a as int) == parse_items(sig@, p + 1, w, a as int, Seq::empty()),
                parse_items(sig@, q as int, w, b as int, view_values(items@)) == parse_items(
                    sig@,
                    p + 1,
                    w,
                    a as int,
                    Seq::empty(),
                ),
            decreases sig@.len() - q,
        {
            if q >= sig.len() {
                return Ok((JsonValue::Array(items), q, b));
            }
            if sig[q] == ')' {
                return Ok((JsonValue::Array(items), q + 1, b));
            }
            proof {
                lemma_parse_advances(sig@, q as int, w, b as int);
            }
            match parse_value(text, sig, q, args, b) {
                Ok((v, q2, b2)) => {
                    let ghost before = items@;
                    items.push(v);
                    proof {
                        assert(items@.drop_last() =~= before);
                    }
                    q = q2;
                    b = b2;
                },
                Err(e) => {
                    return Err(e);
                },
            }
        }
    } else if c == 'n' {
        Ok((JsonValue::Null, p + 1, a))
    } else {
        let one = text.substring_char(p, p + 1);
        let e = owned("unexpected char in signature: ").concat(one);
        proof {
            assert(one@ =~= seq![c]);
        }
        Err(e)
    }
}

/// The JSON value that signature `sig` builds from the words `args`, and
/// how many words it takes from the front of `args`; or the reason it
/// cannot.
pub fn parse_signature(sig: &str, args: &[String]) -> (r: Result<(JsonValue, usize), String>)
    ensures
        match (r, parse_signature_spec(sig@, words_view(args@))) {
            (Ok((v, used)), Ok((sv, su))) => v@ == sv && used == su,
            (Err(e), Err(se)) => e@ == se,
            _ => false,
        },
        r matches Ok((_, used)) ==> used <= args@.len(),
{
    let chars = chars_of(sig);
    proof {
        lemma_parse_advances(chars@, 0, words_view(args@), 0);
    }
    match parse_value(sig, &chars, 0, args, 0) {
        Ok((v, _, used)) => Ok((v, used)),
        Err(e) => Err(e),
    }
}

} // verus!
