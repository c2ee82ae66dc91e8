//! What holds of the guard for raw bytes as a whole.

use vstd::prelude::*;
use vstd::utf8::valid_utf8;

use crate::grammar::{
    all_blocks, all_utf8, any, any_at, block, client, client_blocks, closing, content, counted,
    end_of_bytes, followed_by, id, id_set, integer, is_plain_type, is_safe_update, item,
    judged_alike, leaves, lemma_two_parts, number, optional_id, placement, repeated, string,
    type_ref, unread, update, verdict, Field, Rule, Walk, ANY_ARRAY, ANY_BUFFER, ANY_NULL,
    ANY_UNDEFINED, BLOCK_GC_REF, BLOCK_ITEM_ANY, BLOCK_ITEM_BINARY, BLOCK_ITEM_DELETED,
    BLOCK_ITEM_DOC, BLOCK_ITEM_EMBED, BLOCK_ITEM_FORMAT, BLOCK_ITEM_STRING, BLOCK_SKIP_REF,
    HAS_ORIGIN, HAS_PARENT_SUB, HAS_RIGHT_ORIGIN, MAX_ANY_DEPTH, TYPE_REFS_XML_ELEMENT,
};
use crate::locality::{
    carries_on, extended, lemma_content_local, lemma_parts_local, lemma_shifted_parts, shifted,
};
use crate::nesting::{lemma_any_reaches, reaches};
use crate::reject::Reject;
use crate::wire::{
    buffer, lemma_var_single, lemma_var_size_none, var_u32, MAX_SIGNED_VAR_BYTES, MAX_VAR_BYTES,
};

verus! {

/// Strings that begin valid ones are valid.
proof fn lemma_prefix_utf8(some: Seq<Field>, more: Seq<Field>, t: Seq<u8>)
    requires
        shifted(some, t).is_prefix_of(more),
        all_utf8(more),
    ensures
        all_utf8(some),
{
    assert forall|i: int| 0 <= i < some.len() implies valid_utf8((#[trigger] some[i]).text) by {
        assert(shifted(some, t)[i] == more[i]);
    }
}

/// How a walk over an update, `short`, relates to that over the same bytes with `t` behind,
/// `long`: what the first passes, the second passes too; where the first ends well, the
/// second has bytes left over; where the first stops for what the bytes hold, the second
/// stops alike.
spec fn outgrows(short: Walk, long: Walk, t: Seq<u8>) -> bool {
    &&& shifted(short.strings, t).is_prefix_of(long.strings)
    &&& match short.end {
        Ok(_) => long.strings == shifted(short.strings, t) && long.end == Err::<(), Reject>(
            Reject::Trailing,
        ),
        Err(Reject::Cursor) => true,
        Err(_) => long == extended(short, t),
    }
}

proof fn lemma_followed_by_outgrown(short: Walk, long: Walk, next: Rule, t: Seq<u8>)
    requires
        carries_on(short, long, t),
        short.end is Ok ==> outgrows(next(short.left), next(short.left + t), t),
    ensures
        outgrows(followed_by(short, next), followed_by(long, next), t),
{
    if short.end is Ok {
        let head = shifted(short.strings, t);
        let a = next(short.left).strings;
        let b = next(short.left + t).strings;
        lemma_shifted_parts(short.strings, a, t);
        assert((head + shifted(a, t)).is_prefix_of(head + b));
    }
}

proof fn lemma_end_outgrown(s: Seq<u8>, t: Seq<u8>)
    requires
        t.len() > 0,
    ensures
        outgrows(end_of_bytes(s), end_of_bytes(s + t), t),
{
    assert(shifted(Seq::empty(), t) =~= Seq::empty());
    assert((s + t).len() > 0);
}

proof fn lemma_closing_outgrown(s: Seq<u8>, t: Seq<u8>)
    requires
        t.len() > 0,
    ensures
        outgrows(closing(s), closing(s + t), t),
{
    lemma_parts_local(s, t);
    lemma_end_outgrown(id_set(s).left, t);
    let next = |rest: Seq<u8>| end_of_bytes(rest);
    lemma_followed_by_outgrown(id_set(s), id_set(s + t), next, t);
}

proof fn lemma_update_outgrown(s: Seq<u8>, t: Seq<u8>)
    requires
        t.len() > 0,
    ensures
        outgrows(update(s), update(s + t), t),
{
    lemma_parts_local(s, t);
    lemma_closing_outgrown(all_blocks(s).left, t);
    let next = |rest: Seq<u8>| closing(rest);
    lemma_followed_by_outgrown(all_blocks(s), all_blocks(s + t), next, t);
}

/// Where the longer walk is accepted, the shorter ran out of bytes.
proof fn lemma_outgrown(short: Walk, long: Walk, t: Seq<u8>)
    requires
        outgrows(short, long, t),
        verdict(long) is Ok,
    ensures
        verdict(short) == Err::<(), Reject>(Reject::Cursor),
{
    lemma_prefix_utf8(short.strings, long.strings, t);
}

/// Shifting does not touch the strings themselves.
proof fn lemma_shifted_utf8(strings: Seq<Field>, t: Seq<u8>)
    ensures
        all_utf8(shifted(strings, t)) == all_utf8(strings),
{
    if all_utf8(shifted(strings, t)) {
        lemma_prefix_utf8(strings, shifted(strings, t), t);
    }
}

/// An update with bytes behind it is refused, for these bytes.
pub proof fn law_trailing_bytes_are_refused(bytes: Seq<u8>, more: Seq<u8>)
    requires
        is_safe_update(bytes),
        more.len() > 0,
    ensures
        verdict(update(bytes + more)) == Err::<(), Reject>(Reject::Trailing),
        !is_safe_update(bytes + more),
{
    lemma_update_outgrown(bytes, more);
    lemma_shifted_utf8(update(bytes).strings, more);
}

/// An update cut short anywhere is refused: the walk runs out of bytes.
pub proof fn law_truncated_updates_are_refused(bytes: Seq<u8>, cut: int)
    requires
        is_safe_update(bytes),
        0 <= cut < bytes.len(),
    ensures
        verdict(update(bytes.take(cut))) == Err::<(), Reject>(Reject::Cursor),
        !is_safe_update(bytes.take(cut)),
{
    let head = bytes.take(cut);
    let tail = bytes.skip(cut);
    assert(head + tail =~= bytes);
    lemma_update_outgrown(head, tail);
    lemma_outgrown(update(head), update(bytes), tail);
}

/// What is safe is what a walk accepts.
pub proof fn law_safe_is_accepted(bytes: Seq<u8>)
    ensures
        is_safe_update(bytes) == (verdict(update(bytes)) is Ok),
{
}

/// No string that is not valid UTF-8 gets past: bytes in which the walk meets one are
/// refused for it, whatever stands before and behind.
pub proof fn law_invalid_strings_are_refused(bytes: Seq<u8>, i: int)
    requires
        0 <= i < update(bytes).strings.len(),
        !valid_utf8(update(bytes).strings[i].text),
    ensures
        verdict(update(bytes)) == Err::<(), Reject>(Reject::InvalidUtf8),
        !is_safe_update(bytes),
{
}

/// A walk that was refused, and not for want of bytes, is refused alike if more bytes follow.
proof fn lemma_refused(short: Walk, long: Walk, t: Seq<u8>)
    requires
        outgrows(short, long, t),
        verdict(short) is Err,
        verdict(short) != Err::<(), Reject>(Reject::Cursor),
    ensures
        verdict(long) == verdict(short),
{
    if all_utf8(long.strings) {
        lemma_prefix_utf8(short.strings, long.strings, t);
    }
    lemma_shifted_utf8(short.strings, t);
}

/// What is refused for what it holds, and not for want of bytes, is refused for the same
/// reason whatever follows.
pub proof fn law_refusals_stand(bytes: Seq<u8>, more: Seq<u8>)
    requires
        verdict(update(bytes)) is Err,
        verdict(update(bytes)) != Err::<(), Reject>(Reject::Cursor),
    ensures
        verdict(update(bytes + more)) == verdict(update(bytes)),
{
    if more.len() == 0 {
        assert(bytes + more =~= bytes);
    } else {
        lemma_update_outgrown(bytes, more);
        lemma_refused(update(bytes), update(bytes + more), more);
    }
}

/// `n` arrays one inside the other, each the only value of the next, around a null.
pub open spec fn nested_arrays(n: nat) -> Seq<u8>
    decreases n,
{
    if n == 0 {
        seq![ANY_NULL]
    } else {
        seq![ANY_ARRAY, 1u8] + nested_arrays((n - 1) as nat)
    }
}

/// Nesting is accepted down to the greatest depth, and refused as too deep from there on.
pub proof fn law_nesting_is_bounded(n: nat, depth: nat, more: Seq<u8>)
    requires
        depth <= MAX_ANY_DEPTH + 1,
    ensures
        any(depth, nested_arrays(n) + more).strings.len() == 0,
        depth + n <= MAX_ANY_DEPTH ==> {
            &&& verdict(any(depth, nested_arrays(n) + more)) is Ok
            &&& unread(any(depth, nested_arrays(n) + more)) == more
        },
        depth + n > MAX_ANY_DEPTH ==> verdict(any(depth, nested_arrays(n) + more)) == Err::<
            (),
            Reject,
        >(Reject::TooDeep),
    decreases n,
{
    let s = nested_arrays(n) + more;
    if depth <= MAX_ANY_DEPTH {
        if n == 0 {
            assert(s.skip(1) =~= more);
        } else {
            let inner = nested_arrays((n - 1) as nat) + more;
            assert(s.skip(1) =~= seq![1u8] + inner);
            assert(s.skip(1).skip(1) =~= inner);
            law_nesting_is_bounded((n - 1) as nat, depth + 1, more);
            lemma_counted_once(any_at(depth + 1), s.skip(1));
        }
    }
}

/// A value at too great a depth is refused, and nothing is read of it.
pub proof fn law_too_deep_is_not_read(depth: nat, s: Seq<u8>)
    requires
        depth > MAX_ANY_DEPTH,
    ensures
        verdict(any(depth, s)) == Err::<(), Reject>(Reject::TooDeep),
        unread(any(depth, s)) == s,
{
}

/// A smaller starting depth never refuses more: where a value is not too deep, it is judged
/// alike from every smaller depth, and leaves the same unread.
pub proof fn law_smaller_depth_refuses_no_more(depth: nat, deeper: nat, s: Seq<u8>)
    requires
        depth <= deeper,
        verdict(any(deeper, s)) != Err::<(), Reject>(Reject::TooDeep),
    ensures
        judged_alike(any(depth, s), any(deeper, s)),
{
    lemma_any_reaches(depth, deeper);
    let shallow = any_at(depth)(s);
    let deep = any_at(deeper)(s);
    assert(reaches(shallow, deep));
    if deep.end == Err::<(), Reject>(Reject::TooDeep) {
        let more = shallow.strings.skip(deep.strings.len() as int);
        assert(shallow.strings =~= deep.strings + more);
        lemma_two_parts(deep.strings, more);
    }
}

/// Of an item's info byte only the low four bits count for its content, in the judgement and
/// in what is left unread.
pub proof fn law_low_bits_are_the_kind(info: u8, s: Seq<u8>)
    ensures
        content(info, s) == content(info & 0b1111, s),
        judged_alike(content(info, s), content(info & 0b1111, s)),
{
    assert((info & 0b1111) & 0b1111 == info & 0b1111) by (bit_vector);
}

/// The bit `0x10` of a block's info byte carries no meaning. The info bytes left out are
/// those that are not an item's, with that bit or without.
pub proof fn law_spare_bit_is_ignored(info: u8, rest: Seq<u8>)
    requires
        info != BLOCK_GC_REF && info != BLOCK_SKIP_REF,
        info ^ 0x10 != BLOCK_GC_REF && info ^ 0x10 != BLOCK_SKIP_REF,
    ensures
        judged_alike(block(seq![info] + rest), block(seq![info ^ 0x10] + rest)),
{
    let other = info ^ 0x10;
    assert(other & (HAS_ORIGIN | HAS_RIGHT_ORIGIN) == info & (HAS_ORIGIN | HAS_RIGHT_ORIGIN)
        && other & HAS_ORIGIN == info & HAS_ORIGIN && other & HAS_RIGHT_ORIGIN == info
        & HAS_RIGHT_ORIGIN && other & HAS_PARENT_SUB == info & HAS_PARENT_SUB && other & 0b1111
        == info & 0b1111) by (bit_vector)
        requires
            other == info ^ 0x10,
    ;
    let s = seq![info] + rest;
    let t = seq![other] + rest;
    assert(s.skip(1) =~= rest);
    assert(t.skip(1) =~= rest);
    assert forall|s1: Seq<u8>| #[trigger] placement(info, s1) == placement(other, s1) by {}
    assert forall|s1: Seq<u8>| #[trigger] content(info, s1) == content(other, s1) by {}
    assert(item(info, rest) == item(other, rest));
}

/// A tag that no `Any` value has is refused.
pub proof fn law_unknown_any_tags_are_refused(depth: nat, s: Seq<u8>)
    requires
        depth <= MAX_ANY_DEPTH,
        s.len() > 0,
        !(ANY_BUFFER <= s[0] <= ANY_UNDEFINED),
    ensures
        verdict(any(depth, s)) == Err::<(), Reject>(Reject::BadTag),
{
}

/// A tag that no shared type has is refused, that of a weak link among them.
pub proof fn law_unknown_type_refs_are_refused(s: Seq<u8>)
    requires
        s.len() > 0,
        !is_plain_type(s[0]),
        s[0] != TYPE_REFS_XML_ELEMENT,
    ensures
        verdict(type_ref(s)) == Err::<(), Reject>(Reject::BadTag),
{
}

/// A kind of content that no item has is refused, and nothing is read of it.
pub proof fn law_unknown_contents_are_refused(info: u8, s: Seq<u8>)
    requires
        !(BLOCK_ITEM_DELETED <= info & 0b1111 <= BLOCK_ITEM_DOC),
    ensures
        verdict(content(info, s)) == Err::<(), Reject>(Reject::BadTag),
        unread(content(info, s)) == s,
{
}

/// A number that does not end within eleven bytes is refused, a signed one that does not end
/// within ten, whatever follows.
pub proof fn law_over_long_numbers_are_refused(s: Seq<u8>)
    ensures
        s.len() >= MAX_VAR_BYTES && (forall|i: int|
            0 <= i < MAX_VAR_BYTES ==> #[trigger] s[i] >= 0x80) ==> {
            &&& verdict(number(s)) == Err::<(), Reject>(Reject::Cursor)
            &&& verdict(client(s)) == Err::<(), Reject>(Reject::Cursor)
        },
        s.len() >= MAX_SIGNED_VAR_BYTES && (forall|i: int|
            0 <= i < MAX_SIGNED_VAR_BYTES ==> #[trigger] s[i] >= 0x80) ==> verdict(integer(s))
            == Err::<(), Reject>(Reject::Cursor),
{
    if s.len() >= MAX_VAR_BYTES && forall|i: int|
        0 <= i < MAX_VAR_BYTES ==> #[trigger] s[i] >= 0x80 {
        lemma_var_size_none(s, MAX_VAR_BYTES as nat);
    }
    if s.len() >= MAX_SIGNED_VAR_BYTES && forall|i: int|
        0 <= i < MAX_SIGNED_VAR_BYTES ==> #[trigger] s[i] >= 0x80 {
        lemma_var_size_none(s, MAX_SIGNED_VAR_BYTES as nat);
    }
}

/// A field that claims more bytes than are left is refused.
pub proof fn law_over_long_strings_are_refused(s: Seq<u8>)
    requires
        var_u32(s) matches Some((len, rest)) && len > rest.len(),
    ensures
        verdict(string(s)) == Err::<(), Reject>(Reject::Cursor),
{
}

/// An update of one block and an empty delete set. The block is an item with the given info
/// byte that stands in the parent with id (0, 0).
pub open spec fn one_block(info: u8, body: Seq<u8>) -> Seq<u8> {
    seq![1u8, 1u8, 0u8, 0u8, info, 0u8, 0u8, 0u8] + body + seq![0u8]
}

/// Two zero bytes are an id.
proof fn lemma_zero_id(s: Seq<u8>)
    requires
        s.len() >= 2,
        s[0] == 0,
        s[1] == 0,
    ensures
        id(s).strings.len() == 0,
        id(s).end is Ok,
        id(s).left == s.skip(2),
{
    lemma_var_single(s);
    lemma_var_single(s.skip(1));
    assert(s.skip(1).skip(1) =~= s.skip(2));
}

/// Both walks pass the same strings, end alike and leave the same.
pub open spec fn same_but_read(a: Walk, b: Walk) -> bool {
    a.strings == b.strings && a.end == b.end && a.left == b.left
}

/// A walk that starts with a step that passes no string goes on as the next step does.
proof fn lemma_first_step(first: Walk, next: Rule)
    requires
        first.strings.len() == 0,
        first.end is Ok,
    ensures
        same_but_read(followed_by(first, next), next(first.left)),
{
    assert(first.strings + next(first.left).strings =~= next(first.left).strings);
}

/// The block of [`one_block`], and what follows it.
proof fn lemma_one_block(info: u8, body: Seq<u8>, s: Seq<u8>)
    requires
        1 <= info < 16 && info != BLOCK_SKIP_REF,
        s == seq![info, 0u8, 0u8, 0u8] + body,
    ensures
        same_but_read(block(s), content(info, body)),
{
    assert(info & (HAS_ORIGIN | HAS_RIGHT_ORIGIN) == 0 && info & HAS_ORIGIN == 0 && info
        & HAS_RIGHT_ORIGIN == 0 && info & HAS_PARENT_SUB == 0) by (bit_vector)
        requires
            info < 16,
    ;
    let s1 = s.skip(1);
    lemma_var_single(s1);
    lemma_zero_id(s1.skip(1));
    assert(s1.skip(1).skip(2) =~= body);
    let third = |s3: Seq<u8>| content(info, s3);
    let second = |s2: Seq<u8>| followed_by(placement(info, s2), third);
    let first = |s1: Seq<u8>| followed_by(optional_id(info & HAS_RIGHT_ORIGIN != 0, s1), second);
    let none = leaves(Seq::empty(), s1);
    assert(item(info, s1) == followed_by(none, first));
    lemma_first_step(none, first);
    lemma_first_step(none, second);
    lemma_first_step(placement(info, s1), third);
}

/// A rule repeated once is the rule.
proof fn lemma_once(rule: Rule, s: Seq<u8>)
    ensures
        repeated(1, rule, s) == rule(s),
{
    reveal_with_fuel(repeated, 2);
    if let Ok(nothing) = rule(s).end {
        assert(nothing == ());
    }
    assert(repeated(1, rule, s) =~= rule(s));
}

/// A rule counted once is the rule.
pub proof fn lemma_counted_once(rule: Rule, s: Seq<u8>)
    requires
        s.len() > 0,
        s[0] == 1,
    ensures
        same_but_read(counted(rule, 0, s), rule(s.skip(1))),
{
    lemma_var_single(s);
    lemma_once(rule, s.skip(1));
}

/// The bytes of [`one_block`] behind the number of clients and behind the one client's head.
proof fn lemma_one_block_bytes(info: u8, body: Seq<u8>)
    ensures
        ({
            let s = one_block(info, body);
            &&& s.len() >= 8
            &&& s[0] == 1 && s[1] == 1 && s[2] == 0 && s[3] == 0
            &&& s.skip(1).skip(1).skip(2) == seq![info, 0u8, 0u8, 0u8] + (body + seq![0u8])
        }),
{
    let s = one_block(info, body);
    assert(s.skip(1).skip(1).skip(2) =~= seq![info, 0u8, 0u8, 0u8] + (body + seq![0u8]));
}

/// A client with one block, client 0 from clock 0: the walk is that of the block.
proof fn lemma_one_client(s: Seq<u8>)
    requires
        s.len() >= 3,
        s[0] == 1,
        s[1] == 0,
        s[2] == 0,
    ensures
        same_but_read(client_blocks(s), block(s.skip(1).skip(2))),
{
    let s1 = s.skip(1);
    lemma_var_single(s);
    lemma_zero_id(s1);
    lemma_once(|rest: Seq<u8>| block(rest), s1.skip(2));
    lemma_first_step(id(s1), |s1: Seq<u8>| repeated(1, |s2: Seq<u8>| block(s2), s1));
}

/// A zero byte is an empty delete set.
proof fn lemma_closing_empty()
    ensures
        closing(seq![0u8]).strings.len() == 0,
        closing(seq![0u8]).end is Ok,
{
    let s = seq![0u8];
    lemma_var_single(s);
    assert(s.skip(1) =~= Seq::empty());
}

/// The blocks of [`one_block`] are the content of its item, and what follows it.
proof fn lemma_one_block_blocks(info: u8, body: Seq<u8>)
    requires
        1 <= info < 16 && info != BLOCK_SKIP_REF,
    ensures
        same_but_read(all_blocks(one_block(info, body)), content(info, body + seq![0u8])),
{
    let s = one_block(info, body);
    lemma_one_block_bytes(info, body);
    lemma_counted_once(|rest: Seq<u8>| client_blocks(rest), s);
    lemma_one_client(s.skip(1));
    lemma_one_block(info, body + seq![0u8], s.skip(1).skip(1).skip(2));
}

/// The walk `blocks`, and then an empty delete set, is judged as `blocks` is.
proof fn lemma_closed(blocks: Walk)
    requires
        blocks.end is Ok,
        closing(blocks.left).strings.len() == 0,
        closing(blocks.left).end is Ok,
    ensures
        followed_by(blocks, |rest: Seq<u8>| closing(rest)).end is Ok,
        followed_by(blocks, |rest: Seq<u8>| closing(rest)).strings == blocks.strings,
{
    assert(blocks.strings + closing(blocks.left).strings =~= blocks.strings);
}

/// An update of one block that an item's content `body` makes up ends well, and is safe
/// exactly if the strings of that content are valid.
pub proof fn law_one_block(info: u8, body: Seq<u8>)
    requires
        BLOCK_ITEM_DELETED <= info <= BLOCK_ITEM_DOC,
        content(info, body).end is Ok,
        content(info, body).left.len() == 0,
    ensures
        update(one_block(info, body)).end is Ok,
        is_safe_update(one_block(info, body)) == all_utf8(content(info, body).strings),
{
    let tail = seq![0u8];
    let blocks = all_blocks(one_block(info, body));
    lemma_content_local(info, body, tail);
    lemma_shifted_utf8(content(info, body).strings, tail);
    assert(content(info, body).left + tail =~= tail);
    lemma_one_block_blocks(info, body);
    assert(blocks.left == tail);
    lemma_closing_empty();
    lemma_closed(blocks);
}

/// An update of one block whose content is refused for what it holds is refused alike.
pub proof fn law_one_refused_block(info: u8, body: Seq<u8>)
    requires
        1 <= info < 16 && info != BLOCK_SKIP_REF,
        content(info, body).end is Err,
        content(info, body).end != Err::<(), Reject>(Reject::Cursor),
    ensures
        verdict(update(one_block(info, body))) == verdict(content(info, body)),
        !is_safe_update(one_block(info, body)),
{
    lemma_content_local(info, body, seq![0u8]);
    lemma_shifted_utf8(content(info, body).strings, seq![0u8]);
    lemma_one_block_blocks(info, body);
}

/// A number below 16 is its low four bits.
proof fn lemma_kind(info: u8)
    requires
        info < 16,
    ensures
        info & 0b1111 == info,
{
    assert(info & 0b1111 == info) by (bit_vector)
        requires
            info < 16,
    ;
}

/// One string decides: the same update is safe with a string that is valid UTF-8, and is not
/// with one that is not, both as text and as embedded JSON. The string `text` stands in
/// `field` behind its length, however that is spelled.
pub proof fn law_string_decides(field: Seq<u8>, text: Seq<u8>)
    requires
        buffer(field) == Some((text, Seq::<u8>::empty())),
    ensures
        is_safe_update(one_block(BLOCK_ITEM_STRING, field)) == valid_utf8(text),
        is_safe_update(one_block(BLOCK_ITEM_EMBED, field)) == valid_utf8(text),
{
    lemma_kind(BLOCK_ITEM_STRING);
    lemma_kind(BLOCK_ITEM_EMBED);
    law_one_block(BLOCK_ITEM_STRING, field);
    law_one_block(BLOCK_ITEM_EMBED, field);
    assert(string(field).strings[0].text == text);
}

/// Of a format's key and value, each has to be valid UTF-8.
pub proof fn law_format_checks_key_and_value(
    fields: Seq<u8>,
    key: Seq<u8>,
    second: Seq<u8>,
    value: Seq<u8>,
)
    requires
        buffer(fields) == Some((key, second)),
        buffer(second) == Some((value, Seq::<u8>::empty())),
    ensures
        is_safe_update(one_block(BLOCK_ITEM_FORMAT, fields)) == (valid_utf8(key) && valid_utf8(
            value,
        )),
{
    lemma_kind(BLOCK_ITEM_FORMAT);
    let strings = content(BLOCK_ITEM_FORMAT, fields).strings;
    assert(strings.len() == 2);
    law_one_block(BLOCK_ITEM_FORMAT, fields);
    assert(strings[0].text == key && strings[1].text == value);
}

/// Binary content may hold any bytes.
pub proof fn law_binary_is_arbitrary(field: Seq<u8>, data: Seq<u8>)
    requires
        buffer(field) == Some((data, Seq::<u8>::empty())),
    ensures
        is_safe_update(one_block(BLOCK_ITEM_BINARY, field)),
{
    lemma_kind(BLOCK_ITEM_BINARY);
    law_one_block(BLOCK_ITEM_BINARY, field);
}

/// An update is accepted with values nested down to the greatest depth, and refused as too
/// deep from there on.
pub proof fn law_nesting_decides(n: nat)
    ensures
        verdict(update(one_block(BLOCK_ITEM_ANY, seq![1u8] + nested_arrays(n)))) == if n
            <= MAX_ANY_DEPTH {
            Ok::<(), Reject>(())
        } else {
            Err::<(), Reject>(Reject::TooDeep)
        },
{
    lemma_kind(BLOCK_ITEM_ANY);
    let body = seq![1u8] + nested_arrays(n);
    let none = Seq::<u8>::empty();
    assert(nested_arrays(n) + none =~= nested_arrays(n));
    law_nesting_is_bounded(n, 0, none);
    assert(body.skip(1) =~= nested_arrays(n));
    lemma_counted_once(any_at(0), body);
    assert(same_but_read(content(BLOCK_ITEM_ANY, body), any(0, nested_arrays(n))));
    if n <= MAX_ANY_DEPTH {
        law_one_block(BLOCK_ITEM_ANY, body);
    } else {
        law_one_refused_block(BLOCK_ITEM_ANY, body);
    }
}

} // verus!
