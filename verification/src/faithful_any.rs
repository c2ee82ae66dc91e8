//! That the grammar is faithful to `Any` values.

use vstd::prelude::*;

use crate::faithful::{
    describes, lemma_buffer, lemma_buffer_only, lemma_counted_only, lemma_counted_reads,
    lemma_reads_then, lemma_text_described, lemma_var_size_form, lemma_varint_size, reads, written,
};
use crate::grammar::{any, any_at, any_body, entry, string, texts, Field, MAX_ANY_DEPTH};
use crate::model::{
    all_bytes, all_strings, all_valid, entries_bytes, entries_strings, entries_valid, entry_bytes,
    entry_format, is_signed, items_bytes, items_strings, items_valid, text_format, value_bytes,
    value_format, value_strings, value_valid, Entry, Text, Value,
};
use crate::wire::{
    lemma_passed_whole, lemma_var_i64_local, lemma_var_size_bounds, passed, signed_negates_min,
    var_i64, var_size, MAX_SIGNED_VAR_BYTES,
};

verus! {

/// A signed number is read whatever follows.
proof fn lemma_signed(digits: Seq<u8>, t: Seq<u8>)
    requires
        is_signed(digits),
    ensures
        var_i64(digits + t) == Some(t),
{
    lemma_varint_size(digits, 10);
    assert(!signed_negates_min(digits));
    lemma_var_i64_local(digits, t);
    assert(digits.skip(digits.len() as int) + t =~= t);
}

/// What is read as a signed number is one.
proof fn lemma_signed_only(s: Seq<u8>)
    requires
        var_i64(s) is Some,
    ensures
        var_i64(s) matches Some(rest) && is_signed(passed(s, rest)) && s == passed(s, rest) + rest,
{
    let n = var_size(s, MAX_SIGNED_VAR_BYTES as nat)->0;
    lemma_var_size_bounds(s, MAX_SIGNED_VAR_BYTES as nat);
    lemma_var_size_form(s, MAX_SIGNED_VAR_BYTES as nat);
    lemma_passed_whole(s, n);
    let front = s.take(n as int);
    if n == 10 && front[0] == 0xc0 && (forall|i: int|
        1 <= i < 9 ==> #[trigger] front[i] == 0x80) && front[9] % 4 == 2 {
        assert forall|i: int| 1 <= i < 9 implies #[trigger] s[i] == 0x80 by {
            assert(front[i] == 0x80);
        }
        assert(front[0] == s[0] && front[9] == s[9]);
        assert(signed_negates_min(s));
    }
}

/// The values of a list, one by one.
pub proof fn lemma_items(items: Seq<Value>, depth: nat)
    ensures
        items_bytes(items) == all_bytes(value_format(depth), items),
        items_strings(items) == all_strings(value_format(depth), items),
        items_valid(items, depth) == all_valid(value_format(depth), items),
    decreases items.len(),
{
    let f = value_format(depth);
    if items.len() > 0 {
        let others = items.skip(1);
        assert(items.subrange(1, items.len() as int) =~= others);
        lemma_items(others, depth);
        if all_valid(f, items) {
            assert((f.valid)(items[0]));
            assert forall|i: int| 0 <= i < others.len() implies (f.valid)(#[trigger] others[i]) by {
                assert(others[i] == items[i + 1]);
            }
        }
        if items_valid(items, depth) {
            assert forall|i: int| 0 <= i < items.len() implies (f.valid)(#[trigger] items[i]) by {
                if i > 0 {
                    assert(items[i] == others[i - 1]);
                }
            }
        }
    }
}

/// The entries of a map, one by one.
pub proof fn lemma_entries(entries: Seq<Entry>, depth: nat)
    ensures
        entries_bytes(entries) == all_bytes(entry_format(depth), entries),
        entries_strings(entries) == all_strings(entry_format(depth), entries),
        entries_valid(entries, depth) == all_valid(entry_format(depth), entries),
    decreases entries.len(),
{
    let f = entry_format(depth);
    if entries.len() > 0 {
        let others = entries.skip(1);
        assert(entries.subrange(1, entries.len() as int) =~= others);
        lemma_entries(others, depth);
        if all_valid(f, entries) {
            assert((f.valid)(entries[0]));
            assert forall|i: int| 0 <= i < others.len() implies (f.valid)(#[trigger] others[i]) by {
                assert(others[i] == entries[i + 1]);
            }
        }
        if entries_valid(entries, depth) {
            assert forall|i: int| 0 <= i < entries.len() implies (f.valid)(
                #[trigger] entries[i],
            ) by {
                if i > 0 {
                    assert(entries[i] == others[i - 1]);
                }
            }
        }
    }
}

proof fn lemma_entry_described(depth: nat)
    requires
        describes(value_format(depth), any_at(depth)),
    ensures
        describes(entry_format(depth), entry(any_at(depth))),
{
    lemma_text_described();
    let f = entry_format(depth);
    let g = value_format(depth);
    let h = text_format();
    let one_string = |s: Seq<u8>| string(s);
    let rule = entry(any_at(depth));
    assert forall|x: Entry, t: Seq<u8>| (f.valid)(x) implies #[trigger] reads(
        rule((f.bytes)(x) + t),
        (f.strings)(x),
        t,
    ) by {
        let rest = value_bytes(x.value) + t;
        assert(entry_bytes(x) + t =~= x.key.bytes() + rest);
        assert(reads(one_string((h.bytes)(x.key) + rest), (h.strings)(x.key), rest));
        assert(reads(any_at(depth)((g.bytes)(x.value) + t), (g.strings)(x.value), t));
        lemma_reads_then(
            string(x.key.bytes() + rest),
            any_at(depth),
            seq![x.key.text],
            rest,
            value_strings(x.value),
            t,
        );
    }
    assert forall|s: Seq<u8>| (#[trigger] rule(s)).end is Ok implies exists|x: Entry| #[trigger]
        written(f, x, s, rule(s).left) by {
        let rest = one_string(s).left;
        assert(one_string(s).end is Ok);
        let key = choose|x: Text| #[trigger] written(h, x, s, rest);
        assert(written(h, key, s, rest));
        assert(any_at(depth)(rest).end is Ok);
        let value = choose|x: Value| #[trigger] written(g, x, rest, any_at(depth)(rest).left);
        assert(written(g, value, rest, any_at(depth)(rest).left));
        let x = Entry { key, value };
        assert(s =~= entry_bytes(x) + rule(s).left);
        assert(written(f, x, s, rule(s).left));
    }
}

/// What follows the tag of a value is read in full.
proof fn lemma_any_body_reads(depth: nat, v: Value, rest: Seq<u8>, t: Seq<u8>)
    requires
        describes(value_format(depth + 1), any_at(depth + 1)),
        value_valid(v, depth),
        value_bytes(v) + t == seq![value_bytes(v)[0]] + rest,
    ensures
        reads(any_body(value_bytes(v)[0], any_at(depth + 1), rest), value_strings(v), t),
{
    let inner = any_at(depth + 1);
    let s = value_bytes(v) + t;
    assert(s.skip(1) =~= rest);
    assert(texts(Seq::<Field>::empty()) =~= Seq::empty());
    match v {
        Value::Word { tag } => {
            assert(s.skip(1) =~= t);
        },
        Value::Integer { digits } => {
            assert(s.skip(1) =~= digits + t);
            lemma_signed(digits, t);
        },
        Value::Fixed { tag, bytes } => {
            assert(s.skip(1) =~= bytes + t);
            assert((bytes + t).skip(bytes.len() as int) =~= t);
        },
        Value::Text { text } => {
            assert(s.skip(1) =~= text.bytes() + t);
            lemma_buffer(text, t);
            assert(texts(string(rest).strings) =~= seq![text.text]);
        },
        Value::Buffer { data } => {
            assert(s.skip(1) =~= data.bytes() + t);
            lemma_buffer(data, t);
        },
        Value::Record { count, entries } => {
            assert(s.skip(1) =~= count + entries_bytes(entries) + t);
            lemma_entries(entries, depth + 1);
            lemma_entry_described(depth + 1);
            lemma_counted_reads(entry_format(depth + 1), entry(inner), 0, count, entries, t);
        },
        Value::List { count, items } => {
            assert(s.skip(1) =~= count + items_bytes(items) + t);
            lemma_items(items, depth + 1);
            lemma_counted_reads(value_format(depth + 1), inner, 0, count, items, t);
        },
    }
}

/// What is read behind the tag of a value is a value.
proof fn lemma_any_only(depth: nat, s: Seq<u8>) -> (v: Value)
    requires
        depth <= MAX_ANY_DEPTH,
        describes(value_format(depth + 1), any_at(depth + 1)),
        any(depth, s).end is Ok,
    ensures
        value_valid(v, depth),
        s == value_bytes(v) + any(depth, s).left,
{
    let tag = s[0];
    let rest = s.skip(1);
    let inner = any_at(depth + 1);
    let left = any(depth, s).left;
    assert(s =~= seq![tag] + rest);
    let v = if tag == 127 || tag == 126 || tag == 121 || tag == 120 {
        Value::Word { tag }
    } else if tag == 125 {
        lemma_signed_only(rest);
        Value::Integer { digits: passed(rest, left) }
    } else if tag == 124 {
        assert(rest =~= rest.take(4) + left);
        Value::Fixed { tag, bytes: rest.take(4) }
    } else if tag == 123 || tag == 122 {
        assert(rest =~= rest.take(8) + left);
        Value::Fixed { tag, bytes: rest.take(8) }
    } else if tag == 119 {
        Value::Text { text: lemma_buffer_only(rest) }
    } else if tag == 116 {
        Value::Buffer { data: lemma_buffer_only(rest) }
    } else if tag == 118 {
        lemma_entry_described(depth + 1);
        let (count, entries) = lemma_counted_only(entry_format(depth + 1), entry(inner), 0, rest);
        lemma_entries(entries, depth + 1);
        Value::Record { count, entries }
    } else {
        let (count, items) = lemma_counted_only(value_format(depth + 1), inner, 0, rest);
        lemma_items(items, depth + 1);
        Value::List { count, items }
    };
    assert(s =~= value_bytes(v) + left);
    v
}

/// The rule for `Any` values at a nesting depth is for the values that can stand there.
pub proof fn lemma_any_described(depth: nat)
    ensures
        describes(value_format(depth), any_at(depth)),
    decreases MAX_ANY_DEPTH + 1 - depth,
{
    let f = value_format(depth);
    if depth <= MAX_ANY_DEPTH {
        lemma_any_described(depth + 1);
    }
    assert forall|v: Value, t: Seq<u8>| (f.valid)(v) implies #[trigger] reads(
        any_at(depth)((f.bytes)(v) + t),
        (f.strings)(v),
        t,
    ) by {
        let s = value_bytes(v) + t;
        let rest = s.skip(1);
        assert(value_bytes(v).len() > 0);
        assert(s =~= seq![value_bytes(v)[0]] + rest);
        lemma_any_body_reads(depth, v, rest, t);
    }
    assert forall|s: Seq<u8>| (#[trigger] any_at(depth)(s)).end is Ok implies exists|v: Value|
        #[trigger] written(f, v, s, any_at(depth)(s).left) by {
        let v = lemma_any_only(depth, s);
        assert(written(f, v, s, any_at(depth)(s).left));
    }
}

} // verus!
