//! What is refused, byte for byte, and with which reason.

use vstd::prelude::*;
use vstd::utf8::valid_utf8;

use crate::faithful::lemma_buffer;
use crate::forms::{one_content, one_value};
use crate::grammar::{
    all_utf8, any, any_at, content, entry, lemma_two_parts, string, unread, update, verdict, Field,
};
use crate::laws::{
    law_one_block, law_one_refused_block, lemma_counted_once, one_block, same_but_read,
};
use crate::model::Text;
use crate::reject::Reject;
use crate::wire::lemma_var_single;

verus! {

/// The two ways of writing an update of one content are the same bytes.
proof fn lemma_one_content_bytes(kind: u8, body: Seq<u8>)
    ensures
        one_content(kind, body) == one_block(kind, body),
{
    assert(one_content(kind, body) =~= one_block(kind, body));
}

/// The kind of content in a small info byte.
proof fn lemma_small_info(info: u8)
    requires
        info < 16,
    ensures
        info & 0b1111 == info,
{
    assert(info & 0b1111 == info) by (bit_vector)
        requires
            info < 16,
    ;
}

/// A shared type with another tag than those known is refused for it, whatever follows. That of
/// a weak link (7) is among them.
pub proof fn law_unknown_types_are_bad_tags(tag: u8, body: Seq<u8>)
    requires
        tag == 7 || tag == 8 || 10 <= tag <= 14 || tag >= 16,
    ensures
        verdict(update(one_content(7, seq![tag] + body))) == Err::<(), Reject>(Reject::BadTag),
{
    lemma_one_content_bytes(7, seq![tag] + body);
    lemma_small_info(7);
    law_one_refused_block(7, seq![tag] + body);
}

/// Content of a kind that is not known is refused for it, whatever follows.
pub proof fn law_unknown_kinds_are_bad_tags(kind: u8, body: Seq<u8>)
    requires
        11 <= kind <= 15,
    ensures
        verdict(update(one_content(kind, body))) == Err::<(), Reject>(Reject::BadTag),
{
    lemma_one_content_bytes(kind, body);
    lemma_small_info(kind);
    law_one_refused_block(kind, body);
}

/// An `Any` value with another tag than those known is refused for it, whatever follows.
pub proof fn law_unknown_values_are_bad_tags(tag: u8, body: Seq<u8>)
    requires
        tag < 116 || tag > 127,
    ensures
        verdict(update(one_value(seq![tag] + body))) == Err::<(), Reject>(Reject::BadTag),
{
    let value = seq![tag] + body;
    let s = seq![1u8] + value;
    lemma_one_content_bytes(8, s);
    lemma_small_info(8);
    assert(s.skip(1) =~= value);
    lemma_counted_once(any_at(0), s);
    assert(same_but_read(content(8, s), any(0, value)));
    law_one_refused_block(8, s);
}

/// A string that is not valid UTF-8 is refused for it, and read past.
pub proof fn law_invalid_strings_are_read_past(x: Text, t: Seq<u8>)
    requires
        x.valid(),
        !valid_utf8(x.text),
    ensures
        verdict(string(x.bytes() + t)) == Err::<(), Reject>(Reject::InvalidUtf8),
        unread(string(x.bytes() + t)) == t,
{
    lemma_buffer(x, t);
    assert(string(x.bytes() + t).strings[0].text == x.text);
}

/// Values one inside the other, around a null: where a level is marked, the value is the only
/// one of a map, under the empty key; else it is the only one of an array.
pub open spec fn nested(levels: Seq<bool>) -> Seq<u8>
    decreases levels.len(),
{
    if levels.len() == 0 {
        seq![126u8]
    } else if levels[0] {
        seq![118u8, 1u8, 0u8] + nested(levels.skip(1))
    } else {
        seq![117u8, 1u8] + nested(levels.skip(1))
    }
}

/// The entry of a map under the empty key.
proof fn lemma_empty_key(depth: nat, inner: Seq<u8>)
    ensures
        ({
            let w = entry(any_at(depth))(seq![0u8] + inner);
            &&& w.end == any(depth, inner).end
            &&& w.left == any(depth, inner).left
            &&& all_utf8(any(depth, inner).strings) ==> all_utf8(w.strings)
        }),
{
    let s = seq![0u8] + inner;
    lemma_var_single(s);
    assert(s.skip(1) =~= inner);
    assert(inner.skip(0) =~= inner);
    assert(inner.take(0) =~= Seq::empty());
    let key = string(s).strings;
    assert(key =~= seq![Field { text: Seq::empty(), rest: inner }]);
    assert(valid_utf8(Seq::empty()));
    assert(all_utf8(key));
    lemma_two_parts(key, any(depth, inner).strings);
}

proof fn lemma_nested(levels: Seq<bool>, depth: nat, more: Seq<u8>)
    requires
        depth <= 257,
    ensures
        ({
            let w = any(depth, nested(levels) + more);
            &&& all_utf8(w.strings)
            &&& depth + levels.len() <= 256 ==> w.end is Ok && w.left == more
            &&& depth + levels.len() > 256 ==> w.end == Err::<(), Reject>(Reject::TooDeep)
        }),
    decreases levels.len(),
{
    let s = nested(levels) + more;
    if depth <= 256 {
        if levels.len() == 0 {
            assert(s.skip(1) =~= more);
        } else {
            let inner = nested(levels.skip(1)) + more;
            lemma_nested(levels.skip(1), depth + 1, more);
            if levels[0] {
                assert(s.skip(1).skip(1) =~= seq![0u8] + inner);
                lemma_counted_once(entry(any_at(depth + 1)), s.skip(1));
                lemma_empty_key(depth + 1, inner);
            } else {
                assert(s.skip(1).skip(1) =~= inner);
                lemma_counted_once(any_at(depth + 1), s.skip(1));
            }
        }
    }
}

/// Arrays and maps count alike for the nesting: an update is accepted with up to 256 of them
/// around a value, and refused as too deep with more.
pub proof fn law_every_level_counts(levels: Seq<bool>)
    ensures
        verdict(update(one_value(nested(levels)))) == if levels.len() <= 256 {
            Ok::<(), Reject>(())
        } else {
            Err::<(), Reject>(Reject::TooDeep)
        },
{
    let none = Seq::<u8>::empty();
    let value = nested(levels);
    let s = seq![1u8] + value;
    assert(value + none =~= value);
    lemma_nested(levels, 0, none);
    lemma_one_content_bytes(8, s);
    lemma_small_info(8);
    assert(s.skip(1) =~= value);
    lemma_counted_once(any_at(0), s);
    assert(same_but_read(content(8, s), any(0, value)));
    if levels.len() <= 256 {
        law_one_block(8, s);
        if let Ok(nothing) = update(one_block(8, s)).end {
            assert(nothing == ());
        }
    } else {
        law_one_refused_block(8, s);
    }
}

} // verus!
