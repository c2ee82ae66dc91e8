//! The grammar of a version 1 update.
//!
//! Each rule maps the unread bytes to a [`Walk`]: the bytes that reading by the rule passes,
//! the string fields among them, in order and as raw bytes, and how and where the reading
//! ends. Reading does not look into the strings. That is what [`verdict`] and [`unread`] add:
//! a walk is accepted if it ends well and all its strings are valid UTF-8, and is given up
//! behind the first string that is not.
//!
//! Client ids are 64-bit numbers, and the reference to a weak link is not a type reference.

use vstd::prelude::*;
use vstd::utf8::valid_utf8;

use crate::reject::Reject;
use crate::wire::{
    buffer, buffer_stop, exact, passed, var_i64, var_i64_stop, var_stop, var_u32, var_u64,
};

verus! {

/// How deeply `Any` values may be nested: the outermost has depth 0.
pub const MAX_ANY_DEPTH: u32 = 256;

/// In the info byte: the id of the right neighbour follows.
pub const HAS_RIGHT_ORIGIN: u8 = 0b0100_0000;

/// In the info byte: the id of the left neighbour follows.
pub const HAS_ORIGIN: u8 = 0b1000_0000;

/// In the info byte: the item stands under a key in its parent.
pub const HAS_PARENT_SUB: u8 = 0b0010_0000;

/// A range that was collected.
pub const BLOCK_GC_REF: u8 = 0;

/// An item whose content was deleted. This and the kinds that follow it stand in the low four
/// bits of the info byte.
pub const BLOCK_ITEM_DELETED: u8 = 1;

/// JSON values.
pub const BLOCK_ITEM_JSON: u8 = 2;

/// Arbitrary bytes.
pub const BLOCK_ITEM_BINARY: u8 = 3;

/// Text.
pub const BLOCK_ITEM_STRING: u8 = 4;

/// An embedded JSON value.
pub const BLOCK_ITEM_EMBED: u8 = 5;

/// A formatting attribute.
pub const BLOCK_ITEM_FORMAT: u8 = 6;

/// A shared type.
pub const BLOCK_ITEM_TYPE: u8 = 7;

/// `Any` values.
pub const BLOCK_ITEM_ANY: u8 = 8;

/// A subdocument.
pub const BLOCK_ITEM_DOC: u8 = 9;

/// A range that is left out.
pub const BLOCK_SKIP_REF: u8 = 10;

/// The tag of a shared array.
pub const TYPE_REFS_ARRAY: u8 = 0;

/// The tag of a shared map.
pub const TYPE_REFS_MAP: u8 = 1;

/// The tag of a shared text.
pub const TYPE_REFS_TEXT: u8 = 2;

/// The tag of an XML element, which its name follows.
pub const TYPE_REFS_XML_ELEMENT: u8 = 3;

/// The tag of an XML fragment.
pub const TYPE_REFS_XML_FRAGMENT: u8 = 4;

/// The tag of an XML hook.
pub const TYPE_REFS_XML_HOOK: u8 = 5;

/// The tag of an XML text.
pub const TYPE_REFS_XML_TEXT: u8 = 6;

/// The tag of a subdocument.
pub const TYPE_REFS_DOC: u8 = 9;

/// The tag of a type that is not known yet.
pub const TYPE_REFS_UNDEFINED: u8 = 15;

/// The tag of the `Any` value undefined.
pub const ANY_UNDEFINED: u8 = 127;

/// The tag of null.
pub const ANY_NULL: u8 = 126;

/// The tag of a variable length integer.
pub const ANY_INTEGER: u8 = 125;

/// The tag of a 32-bit floating point number.
pub const ANY_FLOAT32: u8 = 124;

/// The tag of a 64-bit floating point number.
pub const ANY_FLOAT64: u8 = 123;

/// The tag of a fixed width 64-bit integer.
pub const ANY_BIGINT: u8 = 122;

/// The tag of false.
pub const ANY_FALSE: u8 = 121;

/// The tag of true.
pub const ANY_TRUE: u8 = 120;

/// The tag of a string.
pub const ANY_STRING: u8 = 119;

/// The tag of a map.
pub const ANY_MAP: u8 = 118;

/// The tag of an array.
pub const ANY_ARRAY: u8 = 117;

/// The tag of a buffer of arbitrary bytes.
pub const ANY_BUFFER: u8 = 116;

/// A string field that was passed.
#[verifier::ext_equal]
pub struct Field {
    /// The bytes of the string.
    pub text: Seq<u8>,
    /// What is unread behind it.
    pub rest: Seq<u8>,
}

/// A piece of the bytes read.
#[verifier::ext_equal]
pub struct Piece {
    /// The bytes.
    pub bytes: Seq<u8>,
    /// They are a number that is only passed over: a client id, a clock or a length whose
    /// value the grammar does not ask for.
    pub is_value: bool,
}

/// Bytes that the grammar looks at, or passes as content.
pub open spec fn kept(bytes: Seq<u8>) -> Piece {
    Piece { bytes, is_value: false }
}

/// A number that the grammar passes over.
pub open spec fn value(bytes: Seq<u8>) -> Piece {
    Piece { bytes, is_value: true }
}

/// What reading some bytes by a rule of the grammar comes to.
#[verifier::ext_equal]
pub struct Walk {
    /// The string fields passed, up to the end of the reading.
    pub strings: Seq<Field>,
    /// The bytes read, piece by piece.
    pub pieces: Seq<Piece>,
    /// That the rule was followed to its end, or why the reading stopped.
    pub end: Result<(), Reject>,
    /// What is unread where the reading ended.
    pub left: Seq<u8>,
}

/// A rule of the grammar.
pub type Rule = spec_fn(Seq<u8>) -> Walk;

/// The walk that reads `pieces`, which hold no string, and leaves `rest`.
pub open spec fn leaves(pieces: Seq<Piece>, rest: Seq<u8>) -> Walk {
    Walk { strings: Seq::empty(), pieces, end: Ok(()), left: rest }
}

/// The walk that stops at once.
pub open spec fn stops(why: Reject, s: Seq<u8>) -> Walk {
    Walk { strings: Seq::empty(), pieces: Seq::empty(), end: Err(why), left: s }
}

/// The walk `next`, once `read`, which holds no string, has been read.
pub open spec fn after(read: Seq<u8>, next: Walk) -> Walk {
    Walk {
        strings: next.strings,
        pieces: seq![kept(read)] + next.pieces,
        end: next.end,
        left: next.left,
    }
}

/// The walk that goes on with the rule `next` where `first` ended well.
pub open spec fn followed_by(first: Walk, next: Rule) -> Walk {
    match first.end {
        Ok(_) => Walk {
            strings: first.strings + next(first.left).strings,
            pieces: first.pieces + next(first.left).pieces,
            end: next(first.left).end,
            left: next(first.left).left,
        },
        Err(_) => first,
    }
}

/// The rule `item`, `n` times in a row.
pub open spec fn repeated(n: nat, item: Rule, s: Seq<u8>) -> Walk
    decreases n,
{
    if n == 0 {
        leaves(Seq::empty(), s)
    } else {
        followed_by(item(s), |rest: Seq<u8>| repeated((n - 1) as nat, item, rest))
    }
}

/// A number or a buffer that cannot be read: the walk stops where `stop` is left.
pub open spec fn gives_up(s: Seq<u8>, stop: Seq<u8>) -> Walk {
    after(passed(s, stop), stops(Reject::Cursor, stop))
}

/// A number that the grammar passes over.
pub open spec fn number(s: Seq<u8>) -> Walk {
    match var_u32(s) {
        Some((_, rest)) => leaves(seq![value(passed(s, rest))], rest),
        None => gives_up(s, var_stop(s)),
    }
}

/// A client id.
pub open spec fn client(s: Seq<u8>) -> Walk {
    match var_u64(s) {
        Some((_, rest)) => leaves(seq![value(passed(s, rest))], rest),
        None => gives_up(s, var_stop(s)),
    }
}

/// The id of an item: a client id and a clock.
pub open spec fn id(s: Seq<u8>) -> Walk {
    followed_by(client(s), |rest: Seq<u8>| number(rest))
}

/// A number, then as many times the rule `item` as it says, and `extra` times more.
pub open spec fn counted(item: Rule, extra: nat, s: Seq<u8>) -> Walk {
    match var_u32(s) {
        Some((n, rest)) => after(passed(s, rest), repeated(n as nat + extra, item, rest)),
        None => gives_up(s, var_stop(s)),
    }
}

/// A string field.
pub open spec fn string(s: Seq<u8>) -> Walk {
    match buffer(s) {
        Some((text, rest)) => Walk {
            strings: seq![Field { text, rest }],
            pieces: seq![kept(passed(s, rest))],
            end: Ok(()),
            left: rest,
        },
        None => gives_up(s, buffer_stop(s)),
    }
}

/// A field of arbitrary bytes.
pub open spec fn binary(s: Seq<u8>) -> Walk {
    match buffer(s) {
        Some((_, rest)) => leaves(seq![kept(passed(s, rest))], rest),
        None => gives_up(s, buffer_stop(s)),
    }
}

/// A field of exactly `n` bytes.
pub open spec fn fixed(s: Seq<u8>, n: nat) -> Walk {
    match exact(s, n) {
        Some((bytes, rest)) => leaves(seq![kept(bytes)], rest),
        None => stops(Reject::Cursor, s),
    }
}

/// A signed integer. One that `yrs` cannot read without overflow is refused.
pub open spec fn integer(s: Seq<u8>) -> Walk {
    match var_i64(s) {
        Some(rest) => leaves(seq![kept(passed(s, rest))], rest),
        None => gives_up(s, var_i64_stop(s)),
    }
}

/// The rule for a map entry: a string key, then a value by the rule `inner`.
pub open spec fn entry(inner: Rule) -> Rule {
    |s: Seq<u8>| followed_by(string(s), inner)
}

/// What follows the tag of an `Any` value; `inner` is the rule for the values in it.
pub open spec fn any_body(tag: u8, inner: Rule, s: Seq<u8>) -> Walk {
    if tag == ANY_UNDEFINED || tag == ANY_NULL || tag == ANY_FALSE || tag == ANY_TRUE {
        leaves(Seq::empty(), s)
    } else if tag == ANY_INTEGER {
        integer(s)
    } else if tag == ANY_FLOAT32 {
        fixed(s, 4)
    } else if tag == ANY_FLOAT64 || tag == ANY_BIGINT {
        fixed(s, 8)
    } else if tag == ANY_STRING {
        string(s)
    } else if tag == ANY_MAP {
        counted(entry(inner), 0, s)
    } else if tag == ANY_ARRAY {
        counted(inner, 0, s)
    } else if tag == ANY_BUFFER {
        binary(s)
    } else {
        stops(Reject::BadTag, s)
    }
}

/// An `Any` value at nesting depth `depth`.
pub open spec fn any(depth: nat, s: Seq<u8>) -> Walk
    decreases MAX_ANY_DEPTH + 1 - depth, 0nat,
{
    if depth > MAX_ANY_DEPTH {
        stops(Reject::TooDeep, s)
    } else if s.len() == 0 {
        stops(Reject::Cursor, s)
    } else {
        after(s.take(1), any_body(s[0], any_at(depth + 1), s.skip(1)))
    }
}

/// The rule for an `Any` value at nesting depth `depth`.
pub open spec fn any_at(depth: nat) -> Rule
    decreases MAX_ANY_DEPTH + 1 - depth, 1nat,
{
    |s: Seq<u8>| any(depth, s)
}

/// The options of a subdocument: a guid, then an `Any` value.
pub open spec fn doc_options(s: Seq<u8>) -> Walk {
    followed_by(string(s), any_at(0))
}

/// The tag of a shared type that stands alone.
pub open spec fn is_plain_type(tag: u8) -> bool {
    ||| tag == TYPE_REFS_ARRAY
    ||| tag == TYPE_REFS_MAP
    ||| tag == TYPE_REFS_TEXT
    ||| tag == TYPE_REFS_XML_FRAGMENT
    ||| tag == TYPE_REFS_XML_HOOK
    ||| tag == TYPE_REFS_XML_TEXT
    ||| tag == TYPE_REFS_DOC
    ||| tag == TYPE_REFS_UNDEFINED
}

/// A reference to a shared type. That of an XML element holds the element's name.
pub open spec fn type_ref(s: Seq<u8>) -> Walk {
    if s.len() == 0 {
        stops(Reject::Cursor, s)
    } else if is_plain_type(s[0]) {
        leaves(seq![kept(s.take(1))], s.skip(1))
    } else if s[0] == TYPE_REFS_XML_ELEMENT {
        after(s.take(1), string(s.skip(1)))
    } else {
        after(s.take(1), stops(Reject::BadTag, s.skip(1)))
    }
}

/// The content of an item with the given info byte, whose low four bits are the kind of
/// content. JSON content holds one string more than it says.
pub open spec fn content(info: u8, s: Seq<u8>) -> Walk {
    let kind = info & 0b1111;
    if kind == BLOCK_ITEM_DELETED {
        number(s)
    } else if kind == BLOCK_ITEM_JSON {
        counted(|rest: Seq<u8>| string(rest), 1, s)
    } else if kind == BLOCK_ITEM_BINARY {
        binary(s)
    } else if kind == BLOCK_ITEM_STRING || kind == BLOCK_ITEM_EMBED {
        string(s)
    } else if kind == BLOCK_ITEM_FORMAT {
        followed_by(string(s), |rest: Seq<u8>| string(rest))
    } else if kind == BLOCK_ITEM_TYPE {
        type_ref(s)
    } else if kind == BLOCK_ITEM_ANY {
        counted(any_at(0), 0, s)
    } else if kind == BLOCK_ITEM_DOC {
        doc_options(s)
    } else {
        stops(Reject::BadTag, s)
    }
}

/// An id, if there is one.
pub open spec fn optional_id(present: bool, s: Seq<u8>) -> Walk {
    if present {
        id(s)
    } else {
        leaves(Seq::empty(), s)
    }
}

/// The parent of an item: its name where a number 1 announces one, else its id.
pub open spec fn parent(s: Seq<u8>) -> Walk {
    match var_u32(s) {
        Some((n, rest)) => after(
            passed(s, rest),
            if n == 1 {
                string(rest)
            } else {
                id(rest)
            },
        ),
        None => gives_up(s, var_stop(s)),
    }
}

/// Where in its parent an item stands. It is spelled out only for an item without origins;
/// the key in the parent is there if the info byte says so.
pub open spec fn placement(info: u8, s: Seq<u8>) -> Walk {
    if info & (HAS_ORIGIN | HAS_RIGHT_ORIGIN) != 0 {
        leaves(Seq::empty(), s)
    } else if info & HAS_PARENT_SUB != 0 {
        followed_by(parent(s), |rest: Seq<u8>| string(rest))
    } else {
        parent(s)
    }
}

/// An item with the given info byte: its origins, its place, its content.
pub open spec fn item(info: u8, s: Seq<u8>) -> Walk {
    followed_by(
        optional_id(info & HAS_ORIGIN != 0, s),
        |s1: Seq<u8>|
            followed_by(
                optional_id(info & HAS_RIGHT_ORIGIN != 0, s1),
                |s2: Seq<u8>|
                    followed_by(placement(info, s2), |s3: Seq<u8>| content(info, s3)),
            ),
    )
}

/// A block: a skipped or collected range of the length given, or an item.
pub open spec fn block(s: Seq<u8>) -> Walk {
    if s.len() == 0 {
        stops(Reject::Cursor, s)
    } else if s[0] == BLOCK_SKIP_REF || s[0] == BLOCK_GC_REF {
        after(s.take(1), number(s.skip(1)))
    } else {
        after(s.take(1), item(s[0], s.skip(1)))
    }
}

/// The blocks of one client: their number, the client, the first clock, the blocks.
pub open spec fn client_blocks(s: Seq<u8>) -> Walk {
    match var_u32(s) {
        Some((n, rest)) => after(
            passed(s, rest),
            followed_by(
                id(rest),
                |s1: Seq<u8>| repeated(n as nat, |s2: Seq<u8>| block(s2), s1),
            ),
        ),
        None => gives_up(s, var_stop(s)),
    }
}

/// A deleted range: a clock and a length.
pub open spec fn range(s: Seq<u8>) -> Walk {
    followed_by(number(s), |rest: Seq<u8>| number(rest))
}

/// The deleted ranges of one client.
pub open spec fn id_range(s: Seq<u8>) -> Walk {
    counted(|rest: Seq<u8>| range(rest), 0, s)
}

/// A client, and its deleted ranges.
pub open spec fn client_ranges(s: Seq<u8>) -> Walk {
    followed_by(client(s), |rest: Seq<u8>| id_range(rest))
}

/// The delete set.
pub open spec fn id_set(s: Seq<u8>) -> Walk {
    counted(|rest: Seq<u8>| client_ranges(rest), 0, s)
}

/// The end of the bytes.
pub open spec fn end_of_bytes(s: Seq<u8>) -> Walk {
    if s.len() == 0 {
        leaves(Seq::empty(), s)
    } else {
        stops(Reject::Trailing, s)
    }
}

/// The blocks of all clients.
pub open spec fn all_blocks(s: Seq<u8>) -> Walk {
    counted(|rest: Seq<u8>| client_blocks(rest), 0, s)
}

/// What follows the blocks: the delete set, nothing behind.
pub open spec fn closing(s: Seq<u8>) -> Walk {
    followed_by(id_set(s), |rest: Seq<u8>| end_of_bytes(rest))
}

/// A whole update.
pub open spec fn update(s: Seq<u8>) -> Walk {
    followed_by(all_blocks(s), |rest: Seq<u8>| closing(rest))
}

/// The strings of some fields.
pub open spec fn texts(strings: Seq<Field>) -> Seq<Seq<u8>> {
    Seq::new(strings.len(), |i: int| strings[i].text)
}

/// All the strings are valid UTF-8.
pub open spec fn all_utf8(strings: Seq<Field>) -> bool {
    forall|i: int| 0 <= i < strings.len() ==> valid_utf8((#[trigger] strings[i]).text)
}

/// What is unread behind the first string that is not valid UTF-8.
pub open spec fn behind_invalid(strings: Seq<Field>) -> Seq<u8>
    recommends
        !all_utf8(strings),
    decreases strings.len(),
{
    if strings.len() == 0 {
        Seq::empty()
    } else if !valid_utf8(strings[0].text) {
        strings[0].rest
    } else {
        behind_invalid(strings.skip(1))
    }
}

/// How a walk is judged: by its end, if all its strings are valid UTF-8. One string that is
/// not has the walk refused, whatever comes behind it.
pub open spec fn verdict(walk: Walk) -> Result<(), Reject> {
    if all_utf8(walk.strings) {
        walk.end
    } else {
        Err(Reject::InvalidUtf8)
    }
}

/// What is unread when a walk has been judged: it is given up behind the first string that
/// is not valid UTF-8.
pub open spec fn unread(walk: Walk) -> Seq<u8> {
    if all_utf8(walk.strings) {
        walk.left
    } else {
        behind_invalid(walk.strings)
    }
}

/// The two walks are judged alike and leave the same unread.
pub open spec fn judged_alike(a: Walk, b: Walk) -> bool {
    verdict(a) == verdict(b) && unread(a) == unread(b)
}

/// The bytes are an update, from the first to the last, and every string in them is valid
/// UTF-8.
pub open spec fn is_safe_update(bytes: Seq<u8>) -> bool {
    update(bytes).end is Ok && all_utf8(update(bytes).strings)
}

/// Of strings in two parts: they are valid if both parts are, and the first that is not valid
/// is that of the first part, if it has one.
pub proof fn lemma_two_parts(a: Seq<Field>, b: Seq<Field>)
    ensures
        all_utf8(a + b) == (all_utf8(a) && all_utf8(b)),
        behind_invalid(a + b) == if all_utf8(a) {
            behind_invalid(b)
        } else {
            behind_invalid(a)
        },
    decreases a.len(),
{
    let both = a + b;
    assert forall|i: int| 0 <= i < a.len() implies #[trigger] a[i] == both[i] by {}
    assert forall|i: int| 0 <= i < b.len() implies #[trigger] b[i] == both[i + a.len()] by {}
    if all_utf8(a) && all_utf8(b) {
        assert(all_utf8(both));
    }
    if all_utf8(both) {
        assert(all_utf8(a));
        assert(all_utf8(b));
    }
    if a.len() == 0 {
        assert(both =~= b);
    } else {
        let others = a.skip(1);
        assert(both.skip(1) =~= others + b);
        lemma_two_parts(others, b);
        assert forall|i: int| 1 <= i < a.len() implies #[trigger] a[i] == others[i - 1] by {}
        if valid_utf8(a[0].text) && all_utf8(others) {
            assert(all_utf8(a));
        }
        if all_utf8(a) {
            assert forall|i: int| 0 <= i < others.len() implies valid_utf8(
                (#[trigger] others[i]).text,
            ) by {
                assert(others[i] == a[i + 1]);
            }
        }
    }
}

/// The judgement of a walk goes step by step: the first part's refusal, or else the
/// judgement of the second part.
pub proof fn lemma_verdict_followed_by(first: Walk, next: Rule)
    ensures
        verdict(followed_by(first, next)) == match verdict(first) {
            Ok(_) => verdict(next(unread(first))),
            Err(why) => Err(why),
        },
        unread(followed_by(first, next)) == match verdict(first) {
            Ok(_) => unread(next(unread(first))),
            Err(_) => unread(first),
        },
{
    lemma_two_parts(first.strings, next(first.left).strings);
}

/// The judgement of a repetition: that of its first item if it is refused, else that of the
/// other items.
pub proof fn lemma_verdict_repeated(n: nat, item: Rule, s: Seq<u8>)
    ensures
        n == 0 ==> verdict(repeated(n, item, s)) is Ok && unread(repeated(n, item, s)) == s,
        n > 0 ==> verdict(repeated(n, item, s)) == match verdict(item(s)) {
            Ok(_) => verdict(repeated((n - 1) as nat, item, unread(item(s)))),
            Err(why) => Err(why),
        },
        n > 0 ==> unread(repeated(n, item, s)) == match verdict(item(s)) {
            Ok(_) => unread(repeated((n - 1) as nat, item, unread(item(s)))),
            Err(_) => unread(item(s)),
        },
{
    if n > 0 {
        lemma_verdict_followed_by(
            item(s),
            |rest: Seq<u8>| repeated((n - 1) as nat, item, rest),
        );
    }
}

/// The judgement of an item: part by part.
pub proof fn lemma_verdict_item(info: u8, s: Seq<u8>)
    ensures
        ({
            let w1 = optional_id(info & HAS_ORIGIN != 0, s);
            let w2 = optional_id(info & HAS_RIGHT_ORIGIN != 0, unread(w1));
            let w3 = placement(info, unread(w2));
            let w4 = content(info, unread(w3));
            let judged = if verdict(w1) is Err {
                w1
            } else if verdict(w2) is Err {
                w2
            } else if verdict(w3) is Err {
                w3
            } else {
                w4
            };
            judged_alike(item(info, s), judged)
        }),
{
    let third = |s3: Seq<u8>| content(info, s3);
    let second = |s2: Seq<u8>| followed_by(placement(info, s2), third);
    let first = |s1: Seq<u8>|
        followed_by(optional_id(info & HAS_RIGHT_ORIGIN != 0, s1), second);
    let w1 = optional_id(info & HAS_ORIGIN != 0, s);
    let w2 = optional_id(info & HAS_RIGHT_ORIGIN != 0, unread(w1));
    assert(item(info, s) == followed_by(w1, first));
    lemma_verdict_followed_by(w1, first);
    lemma_verdict_followed_by(w2, second);
    lemma_verdict_followed_by(placement(info, unread(w2)), third);
}

} // verus!
