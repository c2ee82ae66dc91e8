//! Reading by a rule does not look behind its end: unless a rule runs out of bytes, it does
//! the same on these bytes with more behind them, and leaves the additional bytes.

use vstd::prelude::*;

use crate::grammar::{
    after, all_blocks, any_at, any_body, binary, block, client, client_blocks, client_ranges,
    content, counted, entry, fixed, followed_by, id, id_range, id_set, integer, item, number,
    optional_id, parent, placement, range, repeated, string, type_ref, Field, Rule, Walk,
    HAS_ORIGIN, HAS_RIGHT_ORIGIN, MAX_ANY_DEPTH,
};
use crate::reject::Reject;
use crate::wire::{
    lemma_buffer_local, lemma_exact_local, lemma_var_i64_local, lemma_var_local, passed, var_u32,
};

verus! {

/// The fields, where `t` stands behind all the bytes.
pub open spec fn shifted(strings: Seq<Field>, t: Seq<u8>) -> Seq<Field> {
    Seq::new(
        strings.len(),
        |i: int| Field { text: strings[i].text, rest: strings[i].rest + t },
    )
}

/// The walk, where `t` stands behind all the bytes and is not looked at.
pub open spec fn extended(walk: Walk, t: Seq<u8>) -> Walk {
    Walk {
        strings: shifted(walk.strings, t),
        pieces: walk.pieces,
        end: walk.end,
        left: walk.left + t,
    }
}

/// Of the walk `short` over some bytes and the walk `long` over these bytes and `t`: the
/// second does as the first, and leaves `t` in addition. Only where the first runs out of
/// bytes, the second may go on from there.
pub open spec fn carries_on(short: Walk, long: Walk, t: Seq<u8>) -> bool {
    if short.end == Err::<(), Reject>(Reject::Cursor) {
        shifted(short.strings, t).is_prefix_of(long.strings)
    } else {
        long == extended(short, t)
    }
}

/// The rule does not look behind its end.
pub open spec fn is_local(rule: Rule) -> bool {
    forall|s: Seq<u8>, t: Seq<u8>| carries_on(rule(s), #[trigger] rule(s + t), t)
}

/// The two parts of some fields are shifted one by one.
pub proof fn lemma_shifted_parts(a: Seq<Field>, b: Seq<Field>, t: Seq<u8>)
    ensures
        shifted(a + b, t) == shifted(a, t) + shifted(b, t),
{
    assert(shifted(a + b, t) =~= shifted(a, t) + shifted(b, t));
}

/// No fields are no fields.
proof fn lemma_shifted_none(t: Seq<u8>)
    ensures
        shifted(Seq::empty(), t) == Seq::<Field>::empty(),
{
    assert(shifted(Seq::empty(), t) =~= Seq::<Field>::empty());
}

proof fn lemma_after_local(read: Seq<u8>, short: Walk, long: Walk, t: Seq<u8>)
    requires
        carries_on(short, long, t),
    ensures
        carries_on(after(read, short), after(read, long), t),
{
}

proof fn lemma_followed_by_local(short: Walk, long: Walk, next: Rule, t: Seq<u8>)
    requires
        carries_on(short, long, t),
        short.end is Ok ==> carries_on(next(short.left), next(short.left + t), t),
    ensures
        carries_on(followed_by(short, next), followed_by(long, next), t),
{
    if short.end is Ok {
        let second = next(short.left);
        lemma_shifted_parts(short.strings, second.strings, t);
        if second.end == Err::<(), Reject>(Reject::Cursor) {
            let a = shifted(second.strings, t);
            let b = next(short.left + t).strings;
            assert((shifted(short.strings, t) + a).is_prefix_of(shifted(short.strings, t) + b));
        }
    }
}

proof fn lemma_repeated_local(n: nat, rule: Rule, s: Seq<u8>, t: Seq<u8>)
    requires
        is_local(rule),
    ensures
        carries_on(repeated(n, rule, s), repeated(n, rule, s + t), t),
    decreases n,
{
    if n == 0 {
        lemma_shifted_none(t);
    } else {
        assert(carries_on(rule(s), rule(s + t), t));
        let next = |rest: Seq<u8>| repeated((n - 1) as nat, rule, rest);
        if rule(s).end is Ok {
            lemma_repeated_local((n - 1) as nat, rule, rule(s).left, t);
        }
        lemma_followed_by_local(rule(s), rule(s + t), next, t);
    }
}

proof fn lemma_counted_local(rule: Rule, extra: nat, s: Seq<u8>, t: Seq<u8>)
    requires
        is_local(rule),
    ensures
        carries_on(counted(rule, extra, s), counted(rule, extra, s + t), t),
{
    lemma_shifted_none(t);
    lemma_var_local(s, t);
    if let Some((n, rest)) = var_u32(s) {
        lemma_repeated_local(n as nat + extra, rule, rest, t);
    }
}

/// The rules without parts do not look behind their end.
proof fn lemma_leaves_local(s: Seq<u8>, t: Seq<u8>)
    ensures
        carries_on(number(s), number(s + t), t),
        carries_on(client(s), client(s + t), t),
        carries_on(string(s), string(s + t), t),
        carries_on(binary(s), binary(s + t), t),
        carries_on(fixed(s, 4), fixed(s + t, 4), t),
        carries_on(fixed(s, 8), fixed(s + t, 8), t),
        carries_on(integer(s), integer(s + t), t),
{
    lemma_shifted_none(t);
    lemma_var_local(s, t);
    lemma_var_i64_local(s, t);
    lemma_exact_local(s, t, 4);
    lemma_exact_local(s, t, 8);
    lemma_buffer_local(s, t);
    assert(string(s).end is Ok ==> string(s + t).strings =~= shifted(string(s).strings, t));
}

proof fn lemma_string_local()
    ensures
        is_local(|s: Seq<u8>| string(s)),
{
    assert forall|s: Seq<u8>, t: Seq<u8>| carries_on(string(s), #[trigger] string(s + t), t) by {
        lemma_leaves_local(s, t);
    }
}

proof fn lemma_id_local(s: Seq<u8>, t: Seq<u8>)
    ensures
        carries_on(id(s), id(s + t), t),
{
    lemma_leaves_local(s, t);
    lemma_leaves_local(client(s).left, t);
    lemma_followed_by_local(client(s), client(s + t), |rest: Seq<u8>| number(rest), t);
}

proof fn lemma_entry_local(value: Rule)
    requires
        is_local(value),
    ensures
        is_local(entry(value)),
{
    assert forall|s: Seq<u8>, t: Seq<u8>|
        carries_on(entry(value)(s), #[trigger] entry(value)(s + t), t) by {
        lemma_leaves_local(s, t);
        assert(carries_on(value(string(s).left), value(string(s).left + t), t));
        lemma_followed_by_local(string(s), string(s + t), value, t);
    }
}

proof fn lemma_any_body_local(tag: u8, inner: Rule, s: Seq<u8>, t: Seq<u8>)
    requires
        is_local(inner),
    ensures
        carries_on(any_body(tag, inner, s), any_body(tag, inner, s + t), t),
{
    lemma_shifted_none(t);
    lemma_leaves_local(s, t);
    lemma_counted_local(inner, 0, s, t);
    lemma_entry_local(inner);
    lemma_counted_local(entry(inner), 0, s, t);
}

proof fn lemma_any_local(depth: nat)
    ensures
        is_local(any_at(depth)),
    decreases MAX_ANY_DEPTH + 1 - depth,
{
    assert forall|s: Seq<u8>, t: Seq<u8>|
        carries_on(any_at(depth)(s), #[trigger] any_at(depth)(s + t), t) by {
        lemma_shifted_none(t);
        if depth <= MAX_ANY_DEPTH && s.len() > 0 {
            lemma_any_local(depth + 1);
            assert((s + t).skip(1) =~= s.skip(1) + t);
            assert((s + t).take(1) =~= s.take(1));
            let inner = any_at(depth + 1);
            lemma_any_body_local(s[0], inner, s.skip(1), t);
            lemma_after_local(
                s.take(1),
                any_body(s[0], inner, s.skip(1)),
                any_body(s[0], inner, s.skip(1) + t),
                t,
            );
        }
    }
}

proof fn lemma_type_ref_local(s: Seq<u8>, t: Seq<u8>)
    ensures
        carries_on(type_ref(s), type_ref(s + t), t),
{
    lemma_shifted_none(t);
    if s.len() > 0 {
        assert((s + t).skip(1) =~= s.skip(1) + t);
        assert((s + t).take(1) =~= s.take(1));
        lemma_leaves_local(s.skip(1), t);
        lemma_after_local(s.take(1), string(s.skip(1)), string(s.skip(1) + t), t);
    }
}

/// The content of an item does not reach behind its end.
pub proof fn lemma_content_local(info: u8, s: Seq<u8>, t: Seq<u8>)
    ensures
        carries_on(content(info, s), content(info, s + t), t),
{
    lemma_shifted_none(t);
    lemma_leaves_local(s, t);
    lemma_string_local();
    lemma_any_local(0);
    lemma_counted_local(|rest: Seq<u8>| string(rest), 1, s, t);
    lemma_counted_local(any_at(0), 0, s, t);
    let rest = string(s).left;
    lemma_leaves_local(rest, t);
    lemma_followed_by_local(string(s), string(s + t), |rest: Seq<u8>| string(rest), t);
    assert(carries_on(any_at(0)(rest), any_at(0)(rest + t), t));
    lemma_followed_by_local(string(s), string(s + t), any_at(0), t);
    lemma_type_ref_local(s, t);
}

proof fn lemma_parent_local(s: Seq<u8>, t: Seq<u8>)
    ensures
        carries_on(parent(s), parent(s + t), t),
{
    lemma_shifted_none(t);
    lemma_var_local(s, t);
    if let Some((n, rest)) = var_u32(s) {
        lemma_leaves_local(rest, t);
        lemma_id_local(rest, t);
        lemma_after_local(passed(s, rest), string(rest), string(rest + t), t);
        lemma_after_local(passed(s, rest), id(rest), id(rest + t), t);
    }
}

proof fn lemma_optional_id_local(present: bool, s: Seq<u8>, t: Seq<u8>)
    ensures
        carries_on(optional_id(present, s), optional_id(present, s + t), t),
{
    lemma_shifted_none(t);
    lemma_id_local(s, t);
}

proof fn lemma_placement_local(info: u8, s: Seq<u8>, t: Seq<u8>)
    ensures
        carries_on(placement(info, s), placement(info, s + t), t),
{
    lemma_shifted_none(t);
    lemma_parent_local(s, t);
    lemma_leaves_local(parent(s).left, t);
    lemma_followed_by_local(parent(s), parent(s + t), |rest: Seq<u8>| string(rest), t);
}

proof fn lemma_item_local(info: u8, s: Seq<u8>, t: Seq<u8>)
    ensures
        carries_on(item(info, s), item(info, s + t), t),
{
    let third = |s3: Seq<u8>| content(info, s3);
    let second = |s2: Seq<u8>| followed_by(placement(info, s2), third);
    let first = |s1: Seq<u8>| followed_by(optional_id(info & HAS_RIGHT_ORIGIN != 0, s1), second);
    let w1 = optional_id(info & HAS_ORIGIN != 0, s);
    let w2 = optional_id(info & HAS_RIGHT_ORIGIN != 0, w1.left);
    let w3 = placement(info, w2.left);
    lemma_optional_id_local(info & HAS_ORIGIN != 0, s, t);
    lemma_optional_id_local(info & HAS_RIGHT_ORIGIN != 0, w1.left, t);
    lemma_placement_local(info, w2.left, t);
    lemma_content_local(info, w3.left, t);
    lemma_followed_by_local(w3, placement(info, w2.left + t), third, t);
    lemma_followed_by_local(
        w2,
        optional_id(info & HAS_RIGHT_ORIGIN != 0, w1.left + t),
        second,
        t,
    );
    lemma_followed_by_local(w1, optional_id(info & HAS_ORIGIN != 0, s + t), first, t);
}

proof fn lemma_block_local()
    ensures
        is_local(|s: Seq<u8>| block(s)),
{
    assert forall|s: Seq<u8>, t: Seq<u8>| carries_on(block(s), #[trigger] block(s + t), t) by {
        lemma_shifted_none(t);
        if s.len() > 0 {
            assert((s + t).skip(1) =~= s.skip(1) + t);
            assert((s + t).take(1) =~= s.take(1));
            lemma_leaves_local(s.skip(1), t);
            lemma_item_local(s[0], s.skip(1), t);
        }
    }
}

proof fn lemma_client_blocks_local()
    ensures
        is_local(|s: Seq<u8>| client_blocks(s)),
{
    lemma_block_local();
    assert forall|s: Seq<u8>, t: Seq<u8>|
        carries_on(client_blocks(s), #[trigger] client_blocks(s + t), t) by {
        lemma_shifted_none(t);
        lemma_var_local(s, t);
        if let Some((n, rest)) = var_u32(s) {
            let next = |s1: Seq<u8>| repeated(n as nat, |s2: Seq<u8>| block(s2), s1);
            lemma_id_local(rest, t);
            lemma_repeated_local(n as nat, |s2: Seq<u8>| block(s2), id(rest).left, t);
            lemma_followed_by_local(id(rest), id(rest + t), next, t);
            lemma_after_local(
                passed(s, rest),
                followed_by(id(rest), next),
                followed_by(id(rest + t), next),
                t,
            );
        }
    }
}

proof fn lemma_range_local()
    ensures
        is_local(|s: Seq<u8>| range(s)),
{
    assert forall|s: Seq<u8>, t: Seq<u8>| carries_on(range(s), #[trigger] range(s + t), t) by {
        lemma_leaves_local(s, t);
        lemma_leaves_local(number(s).left, t);
        lemma_followed_by_local(number(s), number(s + t), |rest: Seq<u8>| number(rest), t);
    }
}

proof fn lemma_client_ranges_local()
    ensures
        is_local(|s: Seq<u8>| client_ranges(s)),
{
    lemma_range_local();
    assert forall|s: Seq<u8>, t: Seq<u8>|
        carries_on(client_ranges(s), #[trigger] client_ranges(s + t), t) by {
        lemma_leaves_local(s, t);
        lemma_counted_local(|rest: Seq<u8>| range(rest), 0, client(s).left, t);
        lemma_followed_by_local(client(s), client(s + t), |rest: Seq<u8>| id_range(rest), t);
    }
}

/// The blocks of all clients do not reach behind their end, nor does the delete set.
pub proof fn lemma_parts_local(s: Seq<u8>, t: Seq<u8>)
    ensures
        carries_on(all_blocks(s), all_blocks(s + t), t),
        carries_on(id_set(s), id_set(s + t), t),
{
    lemma_client_blocks_local();
    lemma_client_ranges_local();
    lemma_counted_local(|rest: Seq<u8>| client_blocks(rest), 0, s, t);
    lemma_counted_local(|rest: Seq<u8>| client_ranges(rest), 0, s, t);
}

} // verus!
