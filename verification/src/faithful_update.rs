//! That the grammar is faithful to blocks, delete sets and whole updates.

use vstd::prelude::*;

use crate::faithful::{
    all_valid_utf8, describes, lemma_buffer, lemma_buffer_only, lemma_counted_only,
    lemma_counted_reads, lemma_id_described, lemma_number_described, lemma_reads_then,
    lemma_reads_verdict, lemma_repeated_only, lemma_repeated_reads, lemma_text_described,
    lemma_unsigned, lemma_unsigned_only, reads, written,
};
use crate::faithful_any::lemma_any_described;
use crate::grammar::{
    after, all_blocks, any_at, block, client, client_blocks, client_ranges, closing, content,
    doc_options, end_of_bytes, followed_by, id, id_range, id_set, is_safe_update, item, leaves,
    number, optional_id, parent, placement, range, repeated, string, texts, type_ref, update,
    verdict, Field, Rule, HAS_ORIGIN, HAS_PARENT_SUB, HAS_RIGHT_ORIGIN,
};
use crate::model::{
    all_bytes, all_strings, all_valid, block_format, client_format, content_format,
    delete_set_format, deleted_format, has_key, has_left, has_parent, has_right, id_format,
    is_count, number_format, optional_format, parent_format, range_format, ranges_format,
    text_format, type_ref_format, value_format, Block, Client, Content, DeleteSet, Deleted, Format,
    Id, Item, Parent, Range, Ranges, Text, TypeRef, Update, Value,
};
use crate::reject::Reject;
use crate::wire::{passed, var_u32};

verus! {

/// Data of two kinds, one behind the other.
pub open spec fn pair_format<A, B>(f: Format<A>, g: Format<B>) -> Format<(A, B)> {
    Format {
        bytes: |x: (A, B)| (f.bytes)(x.0) + (g.bytes)(x.1),
        strings: |x: (A, B)| (f.strings)(x.0) + (g.strings)(x.1),
        valid: |x: (A, B)| (f.valid)(x.0) && (g.valid)(x.1),
    }
}

/// Data of two kinds is read in two steps.
proof fn lemma_pair_reads<A, B>(
    f: Format<A>,
    first: Rule,
    g: Format<B>,
    next: Rule,
    a: A,
    b: B,
    t: Seq<u8>,
)
    requires
        describes(f, first),
        describes(g, next),
        (f.valid)(a),
        (g.valid)(b),
    ensures
        reads(
            followed_by(first((f.bytes)(a) + (g.bytes)(b) + t), next),
            (f.strings)(a) + (g.strings)(b),
            t,
        ),
{
    let rest = (g.bytes)(b) + t;
    assert((f.bytes)(a) + (g.bytes)(b) + t =~= (f.bytes)(a) + rest);
    assert(reads(first((f.bytes)(a) + rest), (f.strings)(a), rest));
    assert(reads(next((g.bytes)(b) + t), (g.strings)(b), t));
    lemma_reads_then(first((f.bytes)(a) + rest), next, (f.strings)(a), rest, (g.strings)(b), t);
}

/// What is read in two steps is data of two kinds.
proof fn lemma_pair_only<A, B>(
    f: Format<A>,
    first: Rule,
    g: Format<B>,
    next: Rule,
    s: Seq<u8>,
) -> (r: (A, B))
    requires
        describes(f, first),
        describes(g, next),
        followed_by(first(s), next).end is Ok,
    ensures
        (f.valid)(r.0),
        (g.valid)(r.1),
        s == (f.bytes)(r.0) + (g.bytes)(r.1) + followed_by(first(s), next).left,
{
    let rest = first(s).left;
    assert(first(s).end is Ok);
    let a = choose|x: A| #[trigger] written(f, x, s, rest);
    assert(written(f, a, s, rest));
    assert(next(rest).end is Ok);
    let b = choose|x: B| #[trigger] written(g, x, rest, next(rest).left);
    assert(written(g, b, rest, next(rest).left));
    assert(s =~= (f.bytes)(a) + (g.bytes)(b) + next(rest).left);
    (a, b)
}

proof fn lemma_pair_described<A, B>(f: Format<A>, first: Rule, g: Format<B>, next: Rule)
    requires
        describes(f, first),
        describes(g, next),
    ensures
        describes(pair_format(f, g), |s: Seq<u8>| followed_by(first(s), next)),
{
    let h = pair_format(f, g);
    let rule = |s: Seq<u8>| followed_by(first(s), next);
    assert forall|x: (A, B), t: Seq<u8>| (h.valid)(x) implies #[trigger] reads(
        rule((h.bytes)(x) + t),
        (h.strings)(x),
        t,
    ) by {
        lemma_pair_reads(f, first, g, next, x.0, x.1, t);
    }
    assert forall|s: Seq<u8>| (#[trigger] rule(s)).end is Ok implies exists|x: (A, B)| #[trigger]
        written(h, x, s, rule(s).left) by {
        let x = lemma_pair_only(f, first, g, next, s);
        assert(written(h, x, s, rule(s).left));
    }
}

/// A reference to a shared type is a plain tag, or a tag and a name.
pub proof fn law_type_refs_are_read()
    ensures
        describes(type_ref_format(), |s: Seq<u8>| type_ref(s)),
{
    let f = type_ref_format();
    assert(texts(Seq::<Field>::empty()) =~= Seq::empty());
    assert forall|x: TypeRef, t: Seq<u8>| (f.valid)(x) implies #[trigger] reads(
        type_ref((f.bytes)(x) + t),
        (f.strings)(x),
        t,
    ) by {
        let s = x.bytes() + t;
        match x {
            TypeRef::Plain { tag } => {
                assert(s.skip(1) =~= t);
            },
            TypeRef::Element { name } => {
                assert(s.skip(1) =~= name.bytes() + t);
                lemma_buffer(name, t);
                assert(texts(string(s.skip(1)).strings) =~= seq![name.text]);
            },
        }
    }
    assert forall|s: Seq<u8>| (#[trigger] type_ref(s)).end is Ok implies exists|x: TypeRef|
        #[trigger] written(f, x, s, type_ref(s).left) by {
        assert(s =~= seq![s[0]] + s.skip(1));
        if s[0] == 3 {
            let name = lemma_buffer_only(s.skip(1));
            let x = TypeRef::Element { name };
            assert(s =~= x.bytes() + type_ref(s).left);
            assert(written(f, x, s, type_ref(s).left));
        } else {
            let x = TypeRef::Plain { tag: s[0] };
            assert(written(f, x, s, type_ref(s).left));
        }
    }
}

/// The options of a subdocument are a guid and an `Any` value.
pub proof fn law_doc_options_are_read()
    ensures
        describes(pair_format(text_format(), value_format(0)), |s: Seq<u8>| doc_options(s)),
{
    lemma_text_described();
    lemma_any_described(0);
    let f = pair_format(text_format(), value_format(0));
    let one_string = |s: Seq<u8>| string(s);
    lemma_pair_described(text_format(), one_string, value_format(0), any_at(0));
    let rule = |s: Seq<u8>| followed_by(one_string(s), any_at(0));
    assert forall|x: (Text, Value), t: Seq<u8>| (f.valid)(x) implies #[trigger] reads(
        doc_options((f.bytes)(x) + t),
        (f.strings)(x),
        t,
    ) by {
        assert(reads(rule((f.bytes)(x) + t), (f.strings)(x), t));
    }
    assert forall|s: Seq<u8>| (#[trigger] doc_options(s)).end is Ok implies exists|
        x: (Text, Value),
    | #[trigger]
        written(f, x, s, doc_options(s).left) by {
        assert(rule(s).end is Ok);
        let x = choose|x: (Text, Value)| #[trigger] written(f, x, s, rule(s).left);
        assert(written(f, x, s, doc_options(s).left));
    }
}

/// An `Any` value is read where it can stand.
pub proof fn law_values_are_read(depth: nat)
    ensures
        describes(value_format(depth), any_at(depth)),
{
    lemma_any_described(depth);
}

/// Content of each kind is read in full.
proof fn lemma_content_reads(info: u8, x: Content, t: Seq<u8>)
    requires
        (content_format(info).valid)(x),
    ensures
        reads(content(info, x.bytes() + t), x.strings(), t),
{
    let s = x.bytes() + t;
    assert(texts(Seq::<Field>::empty()) =~= Seq::empty());
    match x {
        Content::Deleted { len } => {
            lemma_unsigned(len, t);
        },
        Content::Json { count, texts } => {
            lemma_text_described();
            lemma_counted_reads(text_format(), |rest: Seq<u8>| string(rest), 1, count, texts, t);
        },
        Content::Binary { data } => {
            lemma_buffer(data, t);
        },
        Content::Text { text } => {
            lemma_buffer(text, t);
            assert(texts(string(s).strings) =~= seq![text.text]);
        },
        Content::Embed { json } => {
            lemma_buffer(json, t);
            assert(texts(string(s).strings) =~= seq![json.text]);
        },
        Content::Mark { key, value } => {
            lemma_text_described();
            let one_string = |rest: Seq<u8>| string(rest);
            let f = text_format();
            lemma_pair_reads(f, one_string, f, one_string, key, value, t);
            assert(seq![key.text] + seq![value.text] =~= seq![key.text, value.text]);
        },
        Content::Shared { type_ref: r } => {
            law_type_refs_are_read();
            let f = type_ref_format();
            let rule = |s: Seq<u8>| type_ref(s);
            assert(reads(rule((f.bytes)(r) + t), (f.strings)(r), t));
        },
        Content::Values { count, values } => {
            lemma_any_described(0);
            lemma_counted_reads(value_format(0), any_at(0), 0, count, values, t);
        },
        Content::Doc { guid, options } => {
            law_doc_options_are_read();
            let f = pair_format(text_format(), value_format(0));
            let rule = |s: Seq<u8>| doc_options(s);
            let y = (guid, options);
            assert(reads(rule((f.bytes)(y) + t), (f.strings)(y), t));
        },
    }
}

/// What is read as content is content of its kind.
proof fn lemma_content_only(info: u8, s: Seq<u8>) -> (x: Content)
    requires
        content(info, s).end is Ok,
    ensures
        (content_format(info).valid)(x),
        s == x.bytes() + content(info, s).left,
{
    let kind = info & 0b1111;
    let left = content(info, s).left;
    if kind == 1 {
        lemma_unsigned_only(s);
        Content::Deleted { len: passed(s, left) }
    } else if kind == 2 {
        lemma_text_described();
        let (count, texts) = lemma_counted_only(
            text_format(),
            |rest: Seq<u8>| string(rest),
            1,
            s,
        );
        Content::Json { count, texts }
    } else if kind == 3 {
        Content::Binary { data: lemma_buffer_only(s) }
    } else if kind == 4 {
        Content::Text { text: lemma_buffer_only(s) }
    } else if kind == 5 {
        Content::Embed { json: lemma_buffer_only(s) }
    } else if kind == 6 {
        lemma_text_described();
        let one_string = |rest: Seq<u8>| string(rest);
        let (key, value) = lemma_pair_only(
            text_format(),
            one_string,
            text_format(),
            one_string,
            s,
        );
        Content::Mark { key, value }
    } else if kind == 7 {
        law_type_refs_are_read();
        let rule = |s: Seq<u8>| type_ref(s);
        assert(rule(s).end is Ok);
        let r = choose|x: TypeRef| #[trigger] written(type_ref_format(), x, s, rule(s).left);
        assert(written(type_ref_format(), r, s, rule(s).left));
        Content::Shared { type_ref: r }
    } else if kind == 8 {
        lemma_any_described(0);
        let (count, values) = lemma_counted_only(value_format(0), any_at(0), 0, s);
        Content::Values { count, values }
    } else {
        law_doc_options_are_read();
        let f = pair_format(text_format(), value_format(0));
        let rule = |s: Seq<u8>| doc_options(s);
        assert(rule(s).end is Ok);
        let y = choose|x: (Text, Value)| #[trigger] written(f, x, s, rule(s).left);
        assert(written(f, y, s, rule(s).left));
        Content::Doc { guid: y.0, options: y.1 }
    }
}

/// The content of an item is read by its kind.
pub proof fn law_contents_are_read(info: u8)
    ensures
        describes(content_format(info), |s: Seq<u8>| content(info, s)),
{
    let f = content_format(info);
    assert forall|x: Content, t: Seq<u8>| (f.valid)(x) implies #[trigger] reads(
        content(info, (f.bytes)(x) + t),
        (f.strings)(x),
        t,
    ) by {
        lemma_content_reads(info, x, t);
    }
    assert forall|s: Seq<u8>| (#[trigger] content(info, s)).end is Ok implies exists|x: Content|
        #[trigger] written(f, x, s, content(info, s).left) by {
        let x = lemma_content_only(info, s);
        assert(written(f, x, s, content(info, s).left));
    }
}

/// Data that may be absent is read if it is there.
proof fn lemma_optional_described<T>(f: Format<T>, rule: Rule, present: bool, optional: Rule)
    requires
        describes(f, rule),
        forall|s: Seq<u8>| #[trigger]
            optional(s) == if present {
                rule(s)
            } else {
                leaves(Seq::empty(), s)
            },
    ensures
        describes(optional_format(f, present), optional),
{
    let g = optional_format(f, present);
    assert(texts(Seq::<Field>::empty()) =~= Seq::empty());
    assert forall|x: Option<T>, t: Seq<u8>| (g.valid)(x) implies #[trigger] reads(
        optional((g.bytes)(x) + t),
        (g.strings)(x),
        t,
    ) by {
        match x {
            Some(y) => {
                assert(reads(rule((f.bytes)(y) + t), (f.strings)(y), t));
            },
            None => {
                assert(Seq::<u8>::empty() + t =~= t);
            },
        }
    }
    assert forall|s: Seq<u8>| (#[trigger] optional(s)).end is Ok implies exists|x: Option<T>|
        #[trigger] written(g, x, s, optional(s).left) by {
        if present {
            assert(rule(s).end is Ok);
            let y = choose|x: T| #[trigger] written(f, x, s, rule(s).left);
            assert(written(f, y, s, rule(s).left));
            assert(written(g, Some(y), s, optional(s).left));
        } else {
            assert(Seq::<u8>::empty() + s =~= s);
            assert(written(g, None, s, optional(s).left));
        }
    }
}

/// An id is read in full.
proof fn lemma_id_reads(x: Id, t: Seq<u8>)
    requires
        x.valid(),
    ensures
        reads(id(x.bytes() + t), Seq::empty(), t),
{
    lemma_id_described();
    let f = id_format();
    let rule = |s: Seq<u8>| id(s);
    assert(reads(rule((f.bytes)(x) + t), (f.strings)(x), t));
}

/// What is read as an id is one.
proof fn lemma_id_only(s: Seq<u8>) -> (x: Id)
    requires
        id(s).end is Ok,
    ensures
        x.valid(),
        s == x.bytes() + id(s).left,
{
    lemma_id_described();
    let f = id_format();
    let rule = |s: Seq<u8>| id(s);
    assert(rule(s).end is Ok);
    let x = choose|x: Id| #[trigger] written(f, x, s, rule(s).left);
    assert(written(f, x, s, rule(s).left));
    x
}

proof fn lemma_parent_reads(x: Parent, t: Seq<u8>)
    requires
        x.valid(),
    ensures
        reads(parent(x.bytes() + t), x.strings(), t),
{
    match x {
        Parent::Named { flag, name } => {
            let rest = name.bytes() + t;
            lemma_unsigned(flag, rest);
            assert(x.bytes() + t =~= flag + rest);
            lemma_buffer(name, t);
            assert(texts(string(rest).strings) =~= seq![name.text]);
        },
        Parent::Known { flag, id: y } => {
            let rest = y.bytes() + t;
            lemma_unsigned(flag, rest);
            assert(x.bytes() + t =~= flag + rest);
            lemma_id_reads(y, t);
        },
    }
}

proof fn lemma_parent_only(s: Seq<u8>) -> (x: Parent)
    requires
        parent(s).end is Ok,
    ensures
        x.valid(),
        s == x.bytes() + parent(s).left,
{
    lemma_unsigned_only(s);
    let (n, rest) = var_u32(s)->0;
    let flag = passed(s, rest);
    if n == 1 {
        let name = lemma_buffer_only(rest);
        let x = Parent::Named { flag, name };
        assert(s =~= x.bytes() + parent(s).left);
        x
    } else {
        let x = Parent::Known { flag, id: lemma_id_only(rest) };
        assert(s =~= x.bytes() + parent(s).left);
        x
    }
}

proof fn lemma_parent_described()
    ensures
        describes(parent_format(), |s: Seq<u8>| parent(s)),
{
    let f = parent_format();
    assert forall|x: Parent, t: Seq<u8>| (f.valid)(x) implies #[trigger] reads(
        parent((f.bytes)(x) + t),
        (f.strings)(x),
        t,
    ) by {
        lemma_parent_reads(x, t);
    }
    assert forall|s: Seq<u8>| (#[trigger] parent(s)).end is Ok implies exists|x: Parent| #[trigger]
        written(f, x, s, parent(s).left) by {
        let x = lemma_parent_only(s);
        assert(written(f, x, s, parent(s).left));
    }
}

/// What the bits of an info byte announce.
proof fn lemma_info_bits(info: u8)
    ensures
        has_left(info) == (info & HAS_ORIGIN != 0),
        has_right(info) == (info & HAS_RIGHT_ORIGIN != 0),
        has_parent(info) == (info & (HAS_ORIGIN | HAS_RIGHT_ORIGIN) == 0),
        has_key(info) == (has_parent(info) && info & HAS_PARENT_SUB != 0),
{
    assert((info & (HAS_ORIGIN | HAS_RIGHT_ORIGIN) == 0) == (info & 0x80 == 0 && info & 0x40 == 0))
        by (bit_vector);
}

/// The parent of an item and its key there.
pub open spec fn place_format(info: u8) -> Format<(Option<Parent>, Option<Text>)> {
    pair_format(
        optional_format(parent_format(), has_parent(info)),
        optional_format(text_format(), has_key(info)),
    )
}

#[verifier::rlimit(50)]
#[verifier::spinoff_prover]
proof fn lemma_placement_described(info: u8)
    ensures
        describes(place_format(info), |s: Seq<u8>| placement(info, s)),
{
    lemma_info_bits(info);
    lemma_parent_described();
    lemma_text_described();
    let f = place_format(info);
    let p = optional_format(parent_format(), has_parent(info));
    let k = optional_format(text_format(), has_key(info));
    let one_parent = |s: Seq<u8>|
        if has_parent(info) {
            parent(s)
        } else {
            leaves(Seq::empty(), s)
        };
    let one_key = |s: Seq<u8>|
        if has_key(info) {
            string(s)
        } else {
            leaves(Seq::empty(), s)
        };
    lemma_optional_described(
        parent_format(),
        |s: Seq<u8>| parent(s),
        has_parent(info),
        one_parent,
    );
    lemma_optional_described(text_format(), |s: Seq<u8>| string(s), has_key(info), one_key);
    lemma_pair_described(p, one_parent, k, one_key);
    let rule = |s: Seq<u8>| followed_by(one_parent(s), one_key);
    assert forall|s: Seq<u8>| #[trigger] placement(info, s).end == rule(s).end && placement(
        info,
        s,
    ).left == rule(s).left && texts(placement(info, s).strings) == texts(rule(s).strings) by {
        assert(rule(s).strings =~= placement(info, s).strings);
        if let Ok(nothing) = placement(info, s).end {
            assert(nothing == ());
        }
        if let Ok(nothing) = rule(s).end {
            assert(nothing == ());
        }
    }
    assert forall|x: (Option<Parent>, Option<Text>), t: Seq<u8>|
        (f.valid)(x) implies #[trigger] reads(
        placement(info, (f.bytes)(x) + t),
        (f.strings)(x),
        t,
    ) by {
        assert(reads(rule((f.bytes)(x) + t), (f.strings)(x), t));
    }
    assert forall|s: Seq<u8>| (#[trigger] placement(info, s)).end is Ok implies exists|
        x: (Option<Parent>, Option<Text>),
    | #[trigger]
        written(f, x, s, placement(info, s).left) by {
        assert(rule(s).end is Ok);
        let x = choose|x: (Option<Parent>, Option<Text>)| #[trigger]
            written(f, x, s, rule(s).left);
        assert(written(f, x, s, placement(info, s).left));
    }
}

/// The parts of an item.
pub open spec fn item_format(info: u8) -> Format<
    (Option<Id>, (Option<Id>, ((Option<Parent>, Option<Text>), Content))),
> {
    pair_format(
        optional_format(id_format(), has_left(info)),
        pair_format(
            optional_format(id_format(), has_right(info)),
            pair_format(place_format(info), content_format(info)),
        ),
    )
}

#[verifier::rlimit(50)]
#[verifier::spinoff_prover]
proof fn lemma_item_described(info: u8)
    ensures
        describes(item_format(info), |s: Seq<u8>| item(info, s)),
{
    lemma_info_bits(info);
    lemma_id_described();
    lemma_placement_described(info);
    law_contents_are_read(info);
    let left = |s: Seq<u8>| optional_id(info & HAS_ORIGIN != 0, s);
    let right = |s: Seq<u8>| optional_id(info & HAS_RIGHT_ORIGIN != 0, s);
    let place = |s: Seq<u8>| placement(info, s);
    let third = |s3: Seq<u8>| content(info, s3);
    lemma_optional_described(id_format(), |s: Seq<u8>| id(s), has_left(info), left);
    lemma_optional_described(id_format(), |s: Seq<u8>| id(s), has_right(info), right);
    let second = |s2: Seq<u8>| followed_by(placement(info, s2), third);
    let first = |s1: Seq<u8>| followed_by(optional_id(info & HAS_RIGHT_ORIGIN != 0, s1), second);
    let whole = |s: Seq<u8>| item(info, s);
    let h3 = pair_format(place_format(info), content_format(info));
    let h2 = pair_format(optional_format(id_format(), has_right(info)), h3);
    lemma_pair_described(place_format(info), place, content_format(info), third);
    assert((|s: Seq<u8>| followed_by(place(s), third)) =~= second);
    lemma_pair_described(optional_format(id_format(), has_right(info)), right, h3, second);
    assert((|s: Seq<u8>| followed_by(right(s), second)) =~= first);
    lemma_pair_described(optional_format(id_format(), has_left(info)), left, h2, first);
    assert((|s: Seq<u8>| followed_by(left(s), first)) =~= whole);
}

/// A block is a collected range, a skipped one, or an item.
pub proof fn law_blocks_are_read()
    ensures
        describes(block_format(), |s: Seq<u8>| block(s)),
{
    let f = block_format();
    assert forall|x: Block, t: Seq<u8>| (f.valid)(x) implies #[trigger] reads(
        block((f.bytes)(x) + t),
        (f.strings)(x),
        t,
    ) by {
        lemma_block_reads(x, t);
    }
    assert forall|s: Seq<u8>| (#[trigger] block(s)).end is Ok implies exists|x: Block| #[trigger]
        written(f, x, s, block(s).left) by {
        let x = lemma_block_only(s);
        assert(written(f, x, s, block(s).left));
    }
}

/// An item is read in full.
#[verifier::rlimit(50)]
#[verifier::spinoff_prover]
proof fn lemma_item_reads(x: Item, t: Seq<u8>)
    requires
        x.valid(),
    ensures
        reads(item(x.info, x.bytes() + t), x.strings(), t),
{
    lemma_item_described(x.info);
    let f = item_format(x.info);
    let rule = |s: Seq<u8>| item(x.info, s);
    let parts = (x.left, (x.right, ((x.parent, x.key), x.content)));
    assert((f.bytes)(parts) =~= x.bytes());
    assert((f.strings)(parts) =~= x.strings());
    assert((f.valid)(parts));
    assert(reads(rule((f.bytes)(parts) + t), (f.strings)(parts), t));
}

#[verifier::rlimit(50)]
#[verifier::spinoff_prover]
proof fn lemma_block_reads(x: Block, t: Seq<u8>)
    requires
        x.valid(),
    ensures
        reads(block(x.bytes() + t), x.strings(), t),
{
    let s = x.bytes() + t;
    assert(texts(Seq::<Field>::empty()) =~= Seq::empty());
    match x {
        Block::Collected { len } => {
            assert(s.skip(1) =~= len + t);
            lemma_unsigned(len, t);
        },
        Block::Skipped { len } => {
            assert(s.skip(1) =~= len + t);
            lemma_unsigned(len, t);
        },
        Block::Item { item: y } => {
            assert(s.skip(1) =~= y.bytes() + t);
            assert(s[0] == y.info);
            lemma_item_reads(y, t);
        },
    }
}

#[verifier::rlimit(50)]
#[verifier::spinoff_prover]
proof fn lemma_block_only(s: Seq<u8>) -> (x: Block)
    requires
        block(s).end is Ok,
    ensures
        x.valid(),
        s == x.bytes() + block(s).left,
{
    assert(s =~= seq![s[0]] + s.skip(1));
    let rest = s.skip(1);
    let left = block(s).left;
    if s[0] == 0 || s[0] == 10 {
        lemma_unsigned_only(rest);
        let len = passed(rest, left);
        let x = if s[0] == 0 {
            Block::Collected { len }
        } else {
            Block::Skipped { len }
        };
        assert(s =~= x.bytes() + left);
        x
    } else {
        let x = Block::Item { item: lemma_item_only(s[0], rest) };
        assert(s =~= x.bytes() + left);
        x
    }
}

/// What is read as an item is one.
#[verifier::rlimit(50)]
#[verifier::spinoff_prover]
proof fn lemma_item_only(info: u8, s: Seq<u8>) -> (x: Item)
    requires
        item(info, s).end is Ok,
    ensures
        x.info == info,
        x.valid(),
        s == x.bytes() + item(info, s).left,
{
    lemma_item_described(info);
    let f = item_format(info);
    let rule = |s: Seq<u8>| item(info, s);
    assert(rule(s).end is Ok);
    let parts = choose|
        x: (Option<Id>, (Option<Id>, ((Option<Parent>, Option<Text>), Content))),
    | #[trigger]
        written(f, x, s, rule(s).left);
    assert(written(f, parts, s, rule(s).left));
    let x = Item {
        info,
        left: parts.0,
        right: parts.1.0,
        parent: parts.1.1.0.0,
        key: parts.1.1.0.1,
        content: parts.1.1.1,
    };
    assert((f.bytes)(parts) =~= x.bytes());
    x
}

/// The blocks of one client are a count, an id and blocks.
proof fn lemma_client_steps(count: Seq<u8>, n: nat, rest: Seq<u8>)
    requires
        is_count(count, n),
    ensures
        client_blocks(count + rest) == after(
            passed(count + rest, rest),
            followed_by(id(rest), |s1: Seq<u8>| repeated(n, |s2: Seq<u8>| block(s2), s1)),
        ),
{
    lemma_unsigned(count, rest);
}

/// Blocks are read one by one.
proof fn lemma_blocks_read(blocks: Seq<Block>, t: Seq<u8>)
    requires
        all_valid(block_format(), blocks),
    ensures
        reads(
            repeated(
                blocks.len(),
                |s2: Seq<u8>| block(s2),
                all_bytes(block_format(), blocks) + t,
            ),
            all_strings(block_format(), blocks),
            t,
        ),
{
    law_blocks_are_read();
    lemma_repeated_reads(block_format(), |s2: Seq<u8>| block(s2), blocks, t);
}

/// An id and then blocks are read.
proof fn lemma_start_and_blocks_read(start: Id, blocks: Seq<Block>, t: Seq<u8>)
    requires
        start.valid(),
        all_valid(block_format(), blocks),
    ensures
        reads(
            followed_by(
                id(start.bytes() + (all_bytes(block_format(), blocks) + t)),
                |s1: Seq<u8>| repeated(blocks.len(), |s2: Seq<u8>| block(s2), s1),
            ),
            all_strings(block_format(), blocks),
            t,
        ),
{
    let behind = all_bytes(block_format(), blocks) + t;
    let strings = all_strings(block_format(), blocks);
    let none = Seq::<Seq<u8>>::empty();
    lemma_id_reads(start, behind);
    lemma_blocks_read(blocks, t);
    lemma_reads_then(
        id(start.bytes() + behind),
        |s1: Seq<u8>| repeated(blocks.len(), |s2: Seq<u8>| block(s2), s1),
        none,
        behind,
        strings,
        t,
    );
    assert(none + strings =~= strings);
}

#[verifier::rlimit(50)]
#[verifier::spinoff_prover]
proof fn lemma_client_reads(x: Client, t: Seq<u8>)
    requires
        x.valid(),
    ensures
        reads(client_blocks(x.bytes() + t), x.strings(), t),
{
    let rest = x.start.bytes() + (all_bytes(block_format(), x.blocks) + t);
    assert(x.bytes() + t =~= x.count + rest);
    lemma_client_steps(x.count, x.blocks.len(), rest);
    lemma_start_and_blocks_read(x.start, x.blocks, t);
}

/// What is read as blocks is blocks.
proof fn lemma_blocks_only(n: nat, s: Seq<u8>) -> (blocks: Seq<Block>)
    requires
        repeated(n, |s2: Seq<u8>| block(s2), s).end is Ok,
    ensures
        blocks.len() == n,
        all_valid(block_format(), blocks),
        s == all_bytes(block_format(), blocks) + repeated(n, |s2: Seq<u8>| block(s2), s).left,
{
    law_blocks_are_read();
    lemma_repeated_only(block_format(), |s2: Seq<u8>| block(s2), n, s)
}

#[verifier::rlimit(50)]
#[verifier::spinoff_prover]
proof fn lemma_client_only(s: Seq<u8>) -> (x: Client)
    requires
        client_blocks(s).end is Ok,
    ensures
        x.valid(),
        s == x.bytes() + client_blocks(s).left,
{
    lemma_unsigned_only(s);
    let (n, rest) = var_u32(s)->0;
    let start = lemma_id_only(rest);
    let blocks = lemma_blocks_only(n as nat, id(rest).left);
    let x = Client { count: passed(s, rest), start, blocks };
    assert(s =~= x.bytes() + client_blocks(s).left);
    x
}

/// The blocks of one client are read in full.
pub proof fn law_clients_are_read()
    ensures
        describes(client_format(), |s: Seq<u8>| client_blocks(s)),
{
    let f = client_format();
    assert forall|x: Client, t: Seq<u8>| (f.valid)(x) implies #[trigger] reads(
        client_blocks((f.bytes)(x) + t),
        (f.strings)(x),
        t,
    ) by {
        lemma_client_reads(x, t);
    }
    assert forall|s: Seq<u8>| (#[trigger] client_blocks(s)).end is Ok implies exists|x: Client|
        #[trigger] written(f, x, s, client_blocks(s).left) by {
        let x = lemma_client_only(s);
        assert(written(f, x, s, client_blocks(s).left));
    }
}

proof fn lemma_range_described()
    ensures
        describes(range_format(), |s: Seq<u8>| range(s)),
{
    lemma_number_described();
    let f = range_format();
    let n = number_format();
    let one_number = |s: Seq<u8>| number(s);
    assert forall|x: Range, t: Seq<u8>| (f.valid)(x) implies #[trigger] reads(
        range((f.bytes)(x) + t),
        (f.strings)(x),
        t,
    ) by {
        lemma_pair_reads(n, one_number, n, one_number, x.clock, x.len, t);
        assert(Seq::<Seq<u8>>::empty() + Seq::<Seq<u8>>::empty() =~= Seq::empty());
    }
    assert forall|s: Seq<u8>| (#[trigger] range(s)).end is Ok implies exists|x: Range| #[trigger]
        written(f, x, s, range(s).left) by {
        let (clock, len) = lemma_pair_only(n, one_number, n, one_number, s);
        let x = Range { clock, len };
        assert(written(f, x, s, range(s).left));
    }
}

/// No strings, however many times.
proof fn lemma_no_strings<T>(f: Format<T>, xs: Seq<T>)
    requires
        forall|x: T| (#[trigger] (f.strings)(x)).len() == 0,
    ensures
        all_strings(f, xs) == Seq::<Seq<u8>>::empty(),
    decreases xs.len(),
{
    if xs.len() > 0 {
        lemma_no_strings(f, xs.skip(1));
        assert(all_strings(f, xs) =~= Seq::empty());
    }
}

/// The deleted ranges of one client are read in full.
pub proof fn law_id_ranges_are_read()
    ensures
        describes(ranges_format(), |s: Seq<u8>| id_range(s)),
{
    lemma_range_described();
    let f = ranges_format();
    let r = range_format();
    assert forall|x: Ranges, t: Seq<u8>| (f.valid)(x) implies #[trigger] reads(
        id_range((f.bytes)(x) + t),
        (f.strings)(x),
        t,
    ) by {
        lemma_counted_reads(r, |rest: Seq<u8>| range(rest), 0, x.count, x.ranges, t);
        lemma_no_strings(r, x.ranges);
    }
    assert forall|s: Seq<u8>| (#[trigger] id_range(s)).end is Ok implies exists|x: Ranges|
        #[trigger] written(f, x, s, id_range(s).left) by {
        let (count, ranges) = lemma_counted_only(r, |rest: Seq<u8>| range(rest), 0, s);
        let x = Ranges { count, ranges };
        assert(written(f, x, s, id_range(s).left));
    }
}

proof fn lemma_deleted_described()
    ensures
        describes(deleted_format(), |s: Seq<u8>| client_ranges(s)),
{
    lemma_number_described();
    law_id_ranges_are_read();
    let f = deleted_format();
    let n = number_format();
    let r = ranges_format();
    let one_client = |s: Seq<u8>| client(s);
    let one_range = |rest: Seq<u8>| id_range(rest);
    assert forall|x: Deleted, t: Seq<u8>| (f.valid)(x) implies #[trigger] reads(
        client_ranges((f.bytes)(x) + t),
        (f.strings)(x),
        t,
    ) by {
        lemma_pair_reads(n, one_client, r, one_range, x.client, x.ranges, t);
        assert(Seq::<Seq<u8>>::empty() + Seq::<Seq<u8>>::empty() =~= Seq::empty());
    }
    assert forall|s: Seq<u8>| (#[trigger] client_ranges(s)).end is Ok implies exists|x: Deleted|
        #[trigger] written(f, x, s, client_ranges(s).left) by {
        let (c, ranges) = lemma_pair_only(n, one_client, r, one_range, s);
        let x = Deleted { client: c, ranges };
        assert(written(f, x, s, client_ranges(s).left));
    }
}

/// The delete set is read in full.
pub proof fn law_delete_sets_are_read()
    ensures
        describes(delete_set_format(), |s: Seq<u8>| id_set(s)),
{
    lemma_deleted_described();
    let f = delete_set_format();
    let d = deleted_format();
    assert forall|x: DeleteSet, t: Seq<u8>| (f.valid)(x) implies #[trigger] reads(
        id_set((f.bytes)(x) + t),
        (f.strings)(x),
        t,
    ) by {
        lemma_counted_reads(d, |rest: Seq<u8>| client_ranges(rest), 0, x.count, x.clients, t);
        lemma_no_strings(d, x.clients);
    }
    assert forall|s: Seq<u8>| (#[trigger] id_set(s)).end is Ok implies exists|x: DeleteSet|
        #[trigger] written(f, x, s, id_set(s).left) by {
        let (count, clients) = lemma_counted_only(
            d,
            |rest: Seq<u8>| client_ranges(rest),
            0,
            s,
        );
        let x = DeleteSet { count, clients };
        assert(written(f, x, s, id_set(s).left));
    }
}

/// An update that is written down is walked to its end, and is accepted exactly if all its
/// strings are valid UTF-8. No other reason refuses it.
pub proof fn law_written_updates_are_judged_by_their_strings(u: Update)
    requires
        u.valid(),
    ensures
        is_safe_update(u.bytes()) == all_valid_utf8(u.strings()),
        verdict(update(u.bytes())) == if all_valid_utf8(u.strings()) {
            Ok::<(), Reject>(())
        } else {
            Err::<(), Reject>(Reject::InvalidUtf8)
        },
{
    law_clients_are_read();
    law_delete_sets_are_read();
    let none = Seq::<u8>::empty();
    let d = delete_set_format();
    let one_set = |s: Seq<u8>| id_set(s);
    let behind = u.deleted.bytes();
    assert(behind + none =~= behind);
    assert(reads(one_set((d.bytes)(u.deleted) + none), (d.strings)(u.deleted), none));
    let no_strings = Seq::<Seq<u8>>::empty();
    assert(texts(Seq::<Field>::empty()) =~= no_strings);
    lemma_reads_then(
        id_set(behind),
        |rest: Seq<u8>| end_of_bytes(rest),
        no_strings,
        none,
        no_strings,
        none,
    );
    assert(no_strings + no_strings =~= no_strings);
    lemma_counted_reads(
        client_format(),
        |rest: Seq<u8>| client_blocks(rest),
        0,
        u.count,
        u.clients,
        behind,
    );
    lemma_reads_then(
        all_blocks(u.bytes()),
        |rest: Seq<u8>| closing(rest),
        u.strings(),
        behind,
        no_strings,
        none,
    );
    assert(u.strings() + no_strings =~= u.strings());
    lemma_reads_verdict(update(u.bytes()), u.strings(), none);
}

/// What is accepted is an update that is written down, from its first byte to its last, with
/// strings that are all valid UTF-8.
pub proof fn law_only_written_updates_are_safe(bytes: Seq<u8>) -> (u: Update)
    requires
        is_safe_update(bytes),
    ensures
        u.valid(),
        u.bytes() == bytes,
        all_valid_utf8(u.strings()),
{
    law_clients_are_read();
    law_delete_sets_are_read();
    let (count, clients) = lemma_counted_only(
        client_format(),
        |rest: Seq<u8>| client_blocks(rest),
        0,
        bytes,
    );
    let d = delete_set_format();
    let one_set = |s: Seq<u8>| id_set(s);
    let rest = all_blocks(bytes).left;
    assert(one_set(rest).end is Ok);
    let deleted = choose|x: DeleteSet| #[trigger] written(d, x, rest, one_set(rest).left);
    assert(written(d, deleted, rest, one_set(rest).left));
    assert(one_set(rest).left.len() == 0);
    let u = Update { count, clients, deleted };
    assert(u.bytes() =~= bytes);
    law_written_updates_are_judged_by_their_strings(u);
    u
}

} // verus!
