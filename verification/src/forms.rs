//! What holds of updates of certain forms, byte for byte: how the judgement of an update comes
//! from that of its parts.

use vstd::prelude::*;
use vstd::utf8::valid_utf8;

use crate::faithful::all_valid_utf8;
use crate::faithful_any::{lemma_entries, lemma_items};
use crate::faithful_update::law_written_updates_are_judged_by_their_strings;
use crate::grammar::is_safe_update;
use crate::model::{
    all_bytes, all_strings, all_valid, block_format, client_format, deleted_format, entries_bytes,
    entries_strings, entries_valid, entry_bytes, entry_format, entry_strings, entry_valid, has_key,
    has_left, has_right, id_format, is_count, is_signed, is_unsigned, items_bytes, items_strings,
    items_valid, optional_format, range_format, text_format, value_bytes, value_format,
    value_strings, value_valid, Block, Client, Content, DeleteSet, Deleted, Entry, Format, Id, Item,
    Parent, Range, Ranges, Text, TypeRef, Update, Value,
};
use crate::wire::{lemma_var_single, var_bits_u32, var_u32};

verus! {

/// The bytes are a safe update; a name of its own, under which proofs need not look into the
/// grammar.
#[verifier::opaque]
spec fn safe(bytes: Seq<u8>) -> bool {
    is_safe_update(bytes)
}

/// A written update is safe exactly if its strings are valid.
proof fn lemma_written(u: Update)
    requires
        u.valid(),
    ensures
        safe(u.bytes()) == all_valid_utf8(u.strings()),
{
    reveal(safe);
    law_written_updates_are_judged_by_their_strings(u);
}

/// A byte below 128 spells itself.
proof fn lemma_digit(n: u8)
    requires
        n < 128,
    ensures
        is_count(seq![n], n as nat),
{
    let s = seq![n];
    lemma_var_single(s);
    assert(var_u32(s) == Some((var_bits_u32(s, 1), s.skip(1))));
}

proof fn lemma_valid_two(a: Seq<Seq<u8>>, b: Seq<Seq<u8>>)
    ensures
        all_valid_utf8(a + b) == (all_valid_utf8(a) && all_valid_utf8(b)),
{
    let both = a + b;
    if all_valid_utf8(both) {
        assert forall|i: int| 0 <= i < a.len() implies valid_utf8(#[trigger] a[i]) by {
            assert(both[i] == a[i]);
        }
        assert forall|i: int| 0 <= i < b.len() implies valid_utf8(#[trigger] b[i]) by {
            assert(both[i + a.len()] == b[i]);
        }
    }
    if all_valid_utf8(a) && all_valid_utf8(b) {
        assert forall|i: int| 0 <= i < both.len() implies valid_utf8(#[trigger] both[i]) by {
            if i < a.len() {
                assert(both[i] == a[i]);
            } else {
                assert(both[i] == b[i - a.len()]);
            }
        }
    }
}

proof fn lemma_valid_one(text: Seq<u8>)
    ensures
        all_valid_utf8(seq![text]) == valid_utf8(text),
{
    assert(seq![text][0] == text);
}

/// The strings of some data are valid exactly if those of each are.
proof fn lemma_valid_each<T>(f: Format<T>, xs: Seq<T>)
    ensures
        all_valid_utf8(all_strings(f, xs)) == forall|i: int|
            0 <= i < xs.len() ==> all_valid_utf8((f.strings)(#[trigger] xs[i])),
    decreases xs.len(),
{
    if xs.len() > 0 {
        let others = xs.skip(1);
        lemma_valid_each(f, others);
        lemma_valid_two((f.strings)(xs[0]), all_strings(f, others));
        if all_valid_utf8(all_strings(f, xs)) {
            assert forall|i: int| 0 <= i < xs.len() implies all_valid_utf8(
                (f.strings)(#[trigger] xs[i]),
            ) by {
                if i > 0 {
                    assert(xs[i] == others[i - 1]);
                }
            }
        }
        if forall|i: int|
            0 <= i < xs.len() ==> all_valid_utf8((f.strings)(#[trigger] xs[i])) {
            assert forall|i: int| 0 <= i < others.len() implies all_valid_utf8(
                (f.strings)(#[trigger] others[i]),
            ) by {
                assert(others[i] == xs[i + 1]);
            }
            assert(all_valid_utf8((f.strings)(xs[0])));
        }
    }
}

/// The empty delete set.
spec fn nothing_deleted() -> DeleteSet {
    DeleteSet { count: seq![0u8], clients: Seq::empty() }
}

proof fn lemma_nothing_deleted()
    ensures
        nothing_deleted().valid(),
        nothing_deleted().bytes() == seq![0u8],
{
    lemma_digit(0);
    assert(nothing_deleted().bytes() =~= seq![0u8]);
}

/// The blocks of some clients, and then a delete set, are safe exactly if the blocks of each
/// client alone are, with nothing deleted: all the clients that the count says are walked, and
/// what is deleted does not matter.
pub proof fn law_clients_stand_side_by_side(
    count: Seq<u8>,
    clients: Seq<Client>,
    deleted: DeleteSet,
)
    requires
        is_count(count, clients.len()),
        all_valid(client_format(), clients),
        deleted.valid(),
    ensures
        is_safe_update(count + all_bytes(client_format(), clients) + deleted.bytes()) == forall|
            i: int,
        |
            0 <= i < clients.len() ==> is_safe_update(
                seq![1u8] + (#[trigger] clients[i]).bytes() + seq![0u8],
            ),
{
    let f = client_format();
    let u = Update { count, clients, deleted };
    lemma_written(u);
    lemma_valid_each(f, clients);
    assert forall|i: int| 0 <= i < clients.len() implies safe(
        seq![1u8] + (#[trigger] clients[i]).bytes() + seq![0u8],
    ) == all_valid_utf8((f.strings)(clients[i])) by {
        assert((f.valid)(clients[i]));
        lemma_one_client(clients[i]);
    }
    if safe(u.bytes()) {
        assert forall|i: int| 0 <= i < clients.len() implies safe(
            seq![1u8] + (#[trigger] clients[i]).bytes() + seq![0u8],
        ) by {
            assert(all_valid_utf8((f.strings)(clients[i])));
        }
    }
    if forall|i: int|
        0 <= i < clients.len() ==> safe(
            seq![1u8] + (#[trigger] clients[i]).bytes() + seq![0u8],
        ) {
        assert forall|i: int| 0 <= i < clients.len() implies all_valid_utf8(
            (f.strings)(#[trigger] clients[i]),
        ) by {
            assert(safe(seq![1u8] + clients[i].bytes() + seq![0u8]));
        }
    }
    reveal(safe);
}

/// Data of which there is one.
proof fn lemma_single<T>(f: Format<T>, x: T)
    ensures
        all_bytes(f, seq![x]) == (f.bytes)(x),
        all_strings(f, seq![x]) == (f.strings)(x),
        (f.valid)(x) ==> all_valid(f, seq![x]),
{
    let xs = seq![x];
    reveal_with_fuel(all_bytes, 2);
    reveal_with_fuel(all_strings, 2);
    assert(xs.skip(1) =~= Seq::empty());
    assert(all_bytes(f, xs) =~= (f.bytes)(x));
    assert(all_strings(f, xs) =~= (f.strings)(x));
}

/// Data of which there are two.
proof fn lemma_double<T>(f: Format<T>, x: T, y: T)
    ensures
        all_bytes(f, seq![x, y]) == (f.bytes)(x) + (f.bytes)(y),
        all_strings(f, seq![x, y]) == (f.strings)(x) + (f.strings)(y),
        (f.valid)(x) && (f.valid)(y) ==> all_valid(f, seq![x, y]),
{
    let xs = seq![x, y];
    assert(xs.skip(1) =~= seq![y]);
    lemma_single(f, y);
}

proof fn lemma_one_client(client: Client)
    requires
        client.valid(),
    ensures
        safe(seq![1u8] + client.bytes() + seq![0u8]) == all_valid_utf8(client.strings()),
{
    lemma_digit(1);
    lemma_nothing_deleted();
    let u = Update { count: seq![1u8], clients: seq![client], deleted: nothing_deleted() };
    lemma_single(client_format(), client);
    lemma_written(u);
}

/// Two clients' blocks are both walked: the update is safe exactly if each client's blocks
/// alone make a safe one.
pub proof fn law_two_clients(a: Client, b: Client)
    requires
        a.valid(),
        b.valid(),
    ensures
        is_safe_update(seq![2u8] + a.bytes() + b.bytes() + seq![0u8]) == (is_safe_update(
            seq![1u8] + a.bytes() + seq![0u8],
        ) && is_safe_update(seq![1u8] + b.bytes() + seq![0u8])),
{
    lemma_digit(2);
    lemma_nothing_deleted();
    let u = Update { count: seq![2u8], clients: seq![a, b], deleted: nothing_deleted() };
    lemma_double(client_format(), a, b);
    lemma_written(u);
    assert(u.bytes() =~= seq![2u8] + a.bytes() + b.bytes() + seq![0u8]);
    lemma_valid_two(a.strings(), b.strings());
    lemma_one_client(a);
    lemma_one_client(b);
    reveal(safe);
}

proof fn lemma_delete_set(deleted: DeleteSet)
    requires
        deleted.valid(),
    ensures
        safe(seq![0u8] + deleted.bytes()),
{
    lemma_digit(0);
    let u = Update { count: seq![0u8], clients: Seq::empty(), deleted };
    lemma_written(u);
    assert(u.bytes() =~= seq![0u8] + deleted.bytes());
}

/// What is deleted is walked to its end and does not decide: with no blocks, every delete set
/// makes a safe update.
pub proof fn law_delete_sets_are_safe(deleted: DeleteSet)
    requires
        deleted.valid(),
    ensures
        is_safe_update(seq![0u8] + deleted.bytes()),
{
    lemma_delete_set(deleted);
    reveal(safe);
}

/// One deleted range of each of two clients: any numbers will do for the clients, clocks and
/// lengths, and all of them are walked.
pub proof fn law_every_deleted_client_is_walked(a: Id, n: Seq<u8>, b: Id, m: Seq<u8>)
    requires
        a.valid() && b.valid(),
        is_unsigned(n) && is_unsigned(m),
    ensures
        is_safe_update(
            seq![0u8, 2u8] + (a.client + seq![1u8] + a.clock + n) + (b.client + seq![1u8] + b.clock
                + m),
        ),
{
    lemma_digit(2);
    let first = lemma_one_range(a, n);
    let second = lemma_one_range(b, m);
    lemma_double(deleted_format(), first, second);
    let set = DeleteSet { count: seq![2u8], clients: seq![first, second] };
    lemma_delete_set(set);
    assert(seq![0u8] + set.bytes() =~= seq![0u8, 2u8] + (a.client + seq![1u8] + a.clock + n) + (
    b.client + seq![1u8] + b.clock + m));
    reveal(safe);
}

proof fn lemma_one_range(a: Id, n: Seq<u8>) -> (d: Deleted)
    requires
        a.valid(),
        is_unsigned(n),
    ensures
        (deleted_format().valid)(d),
        (deleted_format().bytes)(d) == a.client + seq![1u8] + a.clock + n,
{
    lemma_digit(1);
    let r = Range { clock: a.clock, len: n };
    lemma_single(range_format(), r);
    let d = Deleted { client: a.client, ranges: Ranges { count: seq![1u8], ranges: seq![r] } };
    assert((deleted_format().bytes)(d) =~= a.client + seq![1u8] + a.clock + n);
    d
}

/// Two deleted ranges of one client are both walked.
pub proof fn law_every_deleted_range_is_walked(client: Seq<u8>, a: Range, b: Range)
    requires
        is_unsigned(client),
        is_unsigned(a.clock) && is_unsigned(a.len) && is_unsigned(b.clock) && is_unsigned(b.len),
    ensures
        is_safe_update(
            seq![0u8, 1u8] + client + seq![2u8] + (a.clock + a.len) + (b.clock + b.len),
        ),
{
    lemma_digit(1);
    lemma_digit(2);
    lemma_double(range_format(), a, b);
    let d = Deleted { client, ranges: Ranges { count: seq![2u8], ranges: seq![a, b] } };
    lemma_single(deleted_format(), d);
    let set = DeleteSet { count: seq![1u8], clients: seq![d] };
    lemma_delete_set(set);
    assert(seq![0u8] + set.bytes() =~= seq![0u8, 1u8] + client + seq![2u8] + (a.clock + a.len) + (
    b.clock + b.len));
    reveal(safe);
}

/// All the deleted ranges of all the clients that the counts say are walked, whatever their
/// numbers.
pub proof fn law_deleted_ranges_stand_side_by_side(count: Seq<u8>, clients: Seq<Deleted>)
    requires
        is_count(count, clients.len()),
        forall|i: int|
            0 <= i < clients.len() ==> is_unsigned((#[trigger] clients[i]).client) && is_count(
                clients[i].ranges.count,
                clients[i].ranges.ranges.len(),
            ),
        forall|i: int, j: int|
            0 <= i < clients.len() && 0 <= j < clients[i].ranges.ranges.len() ==> is_unsigned(
                (#[trigger] clients[i].ranges.ranges[j]).clock,
            ) && is_unsigned(clients[i].ranges.ranges[j].len),
    ensures
        is_safe_update(seq![0u8] + count + all_bytes(deleted_format(), clients)),
{
    let f = deleted_format();
    let r = range_format();
    assert forall|i: int| 0 <= i < clients.len() implies (f.valid)(#[trigger] clients[i]) by {
        assert forall|j: int| 0 <= j < clients[i].ranges.ranges.len() implies (r.valid)(
            #[trigger] clients[i].ranges.ranges[j],
        ) by {}
    }
    let set = DeleteSet { count, clients };
    lemma_delete_set(set);
    assert(seq![0u8] + set.bytes() =~= seq![0u8] + count + all_bytes(f, clients));
    reveal(safe);
}

proof fn lemma_client_of(count: Seq<u8>, start: Id, blocks: Seq<Block>)
    requires
        is_count(count, blocks.len()),
        start.valid(),
        all_valid(block_format(), blocks),
    ensures
        safe(
            seq![1u8] + count + start.bytes() + all_bytes(block_format(), blocks) + seq![0u8],
        ) == all_valid_utf8(all_strings(block_format(), blocks)),
{
    let c = Client { count, start, blocks };
    lemma_one_client(c);
    assert(seq![1u8] + c.bytes() + seq![0u8] =~= seq![1u8] + count + start.bytes() + all_bytes(
        block_format(),
        blocks,
    ) + seq![0u8]);
}

proof fn lemma_one_block_of(block: Block)
    requires
        block.valid(),
    ensures
        safe(seq![1u8, 1u8, 0u8, 0u8] + block.bytes() + seq![0u8]) == all_valid_utf8(
            block.strings(),
        ),
{
    lemma_digit(0);
    lemma_digit(1);
    let start = Id { client: seq![0u8], clock: seq![0u8] };
    lemma_single(block_format(), block);
    lemma_client_of(seq![1u8], start, seq![block]);
    assert(seq![1u8] + seq![1u8] + start.bytes() + block.bytes() + seq![0u8] =~= seq![
        1u8,
        1u8,
        0u8,
        0u8,
    ] + block.bytes() + seq![0u8]);
}

/// All the blocks of a client that their count says are walked: they are safe exactly if each
/// block alone is, whichever client and clock they are of.
pub proof fn law_blocks_stand_side_by_side(count: Seq<u8>, start: Id, blocks: Seq<Block>)
    requires
        is_count(count, blocks.len()),
        start.valid(),
        all_valid(block_format(), blocks),
    ensures
        is_safe_update(
            seq![1u8] + count + start.bytes() + all_bytes(block_format(), blocks) + seq![0u8],
        ) == forall|i: int|
            0 <= i < blocks.len() ==> is_safe_update(
                seq![1u8, 1u8, 0u8, 0u8] + (#[trigger] blocks[i]).bytes() + seq![0u8],
            ),
{
    let f = block_format();
    lemma_client_of(count, start, blocks);
    lemma_valid_each(f, blocks);
    assert forall|i: int| 0 <= i < blocks.len() implies safe(
        seq![1u8, 1u8, 0u8, 0u8] + (#[trigger] blocks[i]).bytes() + seq![0u8],
    ) == all_valid_utf8((f.strings)(blocks[i])) by {
        assert((f.valid)(blocks[i]));
        lemma_one_block_of(blocks[i]);
    }
    reveal(safe);
}

/// Two blocks of a client are both walked.
pub proof fn law_two_blocks(a: Block, b: Block)
    requires
        a.valid(),
        b.valid(),
    ensures
        is_safe_update(seq![1u8, 2u8, 0u8, 0u8] + a.bytes() + b.bytes() + seq![0u8]) == (
        is_safe_update(seq![1u8, 1u8, 0u8, 0u8] + a.bytes() + seq![0u8]) && is_safe_update(
            seq![1u8, 1u8, 0u8, 0u8] + b.bytes() + seq![0u8],
        )),
{
    lemma_digit(0);
    lemma_digit(2);
    let start = Id { client: seq![0u8], clock: seq![0u8] };
    lemma_double(block_format(), a, b);
    lemma_client_of(seq![2u8], start, seq![a, b]);
    assert(seq![1u8] + seq![2u8] + start.bytes() + (a.bytes() + b.bytes()) + seq![0u8] =~= seq![
        1u8,
        2u8,
        0u8,
        0u8,
    ] + a.bytes() + b.bytes() + seq![0u8]);
    lemma_valid_two(a.strings(), b.strings());
    lemma_one_block_of(a);
    lemma_one_block_of(b);
    reveal(safe);
}

/// A range that was collected or is left out is safe, whatever its length.
pub proof fn law_ranges_are_safe(len: Seq<u8>)
    requires
        is_unsigned(len),
    ensures
        is_safe_update(seq![1u8, 1u8, 0u8, 0u8, 0u8] + len + seq![0u8]),
        is_safe_update(seq![1u8, 1u8, 0u8, 0u8, 10u8] + len + seq![0u8]),
{
    let a = Block::Collected { len };
    let b = Block::Skipped { len };
    lemma_one_block_of(a);
    lemma_one_block_of(b);
    assert(seq![1u8, 1u8, 0u8, 0u8] + a.bytes() + seq![0u8] =~= seq![1u8, 1u8, 0u8, 0u8, 0u8] + len
        + seq![0u8]);
    assert(seq![1u8, 1u8, 0u8, 0u8] + b.bytes() + seq![0u8] =~= seq![1u8, 1u8, 0u8, 0u8, 10u8] + len
        + seq![0u8]);
    reveal(safe);
}

/// An update of one item: with its info byte, and what follows it.
pub open spec fn one_item(info: u8, body: Seq<u8>) -> Seq<u8> {
    seq![1u8, 1u8, 0u8, 0u8, info] + body + seq![0u8]
}

proof fn lemma_one_item(x: Item)
    requires
        x.valid(),
        x.info != 0 && x.info != 10,
    ensures
        safe(one_item(x.info, x.bytes())) == (all_valid_utf8(x.place_strings())
            && all_valid_utf8(x.content.strings())),
{
    let b = Block::Item { item: x };
    lemma_one_block_of(b);
    assert(seq![1u8, 1u8, 0u8, 0u8] + b.bytes() + seq![0u8] =~= one_item(x.info, x.bytes()));
    lemma_valid_two(x.place_strings(), x.content.strings());
}

/// A small info byte announces neither neighbour nor key, and with `0x20` a key.
proof fn lemma_kind_bits(kind: u8)
    requires
        kind < 16,
    ensures
        kind & 0b1111 == kind && !has_left(kind) && !has_right(kind) && !has_key(kind),
        (0x20 | kind) & 0b1111 == kind && !has_left(0x20 | kind) && !has_right(0x20 | kind),
        has_key(0x20 | kind) && 0x20 | kind >= 0x20,
{
    assert(kind & 0b1111 == kind && kind & 0x80 == 0 && kind & 0x40 == 0 && kind & 0x20 == 0)
        by (bit_vector)
        requires
            kind < 16,
    ;
    assert((0x20 | kind) & 0b1111 == kind && (0x20 | kind) & 0x80 == 0 && (0x20 | kind) & 0x40 == 0
        && (0x20 | kind) & 0x20 != 0 && 0x20 | kind >= 0x20) by (bit_vector)
        requires
            kind < 16,
    ;
}

/// The content of an item alone: it stands in the parent with the id (0, 0).
pub open spec fn one_content(kind: u8, body: Seq<u8>) -> Seq<u8> {
    one_item(kind, seq![0u8, 0u8, 0u8] + body)
}

proof fn lemma_one_content(x: Content)
    requires
        x.valid(),
    ensures
        safe(one_content(x.kind(), x.bytes())) == all_valid_utf8(x.strings()),
{
    lemma_digit(0);
    lemma_kind_bits(x.kind());
    let zero = Id { client: seq![0u8], clock: seq![0u8] };
    let y = Item {
        info: x.kind(),
        left: None,
        right: None,
        parent: Some(Parent::Known { flag: seq![0u8], id: zero }),
        key: None,
        content: x,
    };
    lemma_one_item(y);
    assert(y.bytes() =~= seq![0u8, 0u8, 0u8] + x.bytes());
    assert(y.place_strings() =~= Seq::empty());
}

/// A key in a parent given by its name: name, key and content are all checked. Without a key,
/// name and content are.
pub proof fn law_names_and_keys_are_checked(name: Text, key: Text, x: Content)
    requires
        name.valid(),
        key.valid(),
        x.valid(),
    ensures
        is_safe_update(
            one_item(0x20 | x.kind(), seq![1u8] + name.bytes() + key.bytes() + x.bytes()),
        ) == (valid_utf8(name.text) && valid_utf8(key.text) && is_safe_update(
            one_content(x.kind(), x.bytes()),
        )),
        is_safe_update(one_item(x.kind(), seq![1u8] + name.bytes() + x.bytes())) == (valid_utf8(
            name.text,
        ) && is_safe_update(one_content(x.kind(), x.bytes()))),
{
    lemma_digit(1);
    lemma_kind_bits(x.kind());
    lemma_one_content(x);
    let parent = Parent::Named { flag: seq![1u8], name };
    let a = Item {
        info: 0x20 | x.kind(),
        left: None,
        right: None,
        parent: Some(parent),
        key: Some(key),
        content: x,
    };
    lemma_one_item(a);
    assert(a.bytes() =~= seq![1u8] + name.bytes() + key.bytes() + x.bytes());
    lemma_valid_two(seq![name.text], seq![key.text]);
    lemma_valid_one(name.text);
    lemma_valid_one(key.text);
    let b = Item {
        info: x.kind(),
        left: None,
        right: None,
        parent: Some(parent),
        key: None,
        content: x,
    };
    lemma_one_item(b);
    assert(b.bytes() =~= seq![1u8] + name.bytes() + x.bytes());
    assert(b.place_strings() =~= seq![name.text]);
    reveal(safe);
}

/// A key in a parent given by its id: key and content are checked. Without a key the content
/// is. Any number but 1 announces an id.
pub proof fn law_keys_are_checked(flag: Seq<u8>, id: Id, key: Text, x: Content)
    requires
        is_unsigned(flag) && !is_count(flag, 1),
        id.valid(),
        key.valid(),
        x.valid(),
    ensures
        is_safe_update(one_item(0x20 | x.kind(), flag + id.bytes() + key.bytes() + x.bytes())) == (
        valid_utf8(key.text) && is_safe_update(one_content(x.kind(), x.bytes()))),
        is_safe_update(one_item(x.kind(), flag + id.bytes() + x.bytes())) == is_safe_update(
            one_content(x.kind(), x.bytes()),
        ),
{
    lemma_kind_bits(x.kind());
    lemma_one_content(x);
    let parent = Parent::Known { flag, id };
    let a = Item {
        info: 0x20 | x.kind(),
        left: None,
        right: None,
        parent: Some(parent),
        key: Some(key),
        content: x,
    };
    lemma_one_item(a);
    assert(a.bytes() =~= flag + id.bytes() + key.bytes() + x.bytes());
    assert(a.place_strings() =~= seq![key.text]);
    lemma_valid_one(key.text);
    let b = Item {
        info: x.kind(),
        left: None,
        right: None,
        parent: Some(parent),
        key: None,
        content: x,
    };
    lemma_one_item(b);
    assert(b.bytes() =~= flag + id.bytes() + x.bytes());
    assert(b.place_strings() =~= Seq::empty());
    reveal(safe);
}

/// An info byte of the kind of `x` that announces these neighbours, and perhaps a key.
proof fn lemma_neighbours(info: u8, left: Option<Id>, right: Option<Id>, x: Content)
    requires
        info & 0b1111 == x.kind(),
        left is Some == has_left(info),
        right is Some == has_right(info),
        left is Some || right is Some,
        left matches Some(id) ==> id.valid(),
        right matches Some(id) ==> id.valid(),
        x.valid(),
    ensures
        safe(
            one_item(
                info,
                (optional_format(id_format(), true).bytes)(left) + (optional_format(
                    id_format(),
                    true,
                ).bytes)(right) + x.bytes(),
            ),
        ) == all_valid_utf8(x.strings()),
{
    let y = Item { info, left, right, parent: None, key: None, content: x };
    assert(info != 0 && info != 10) by {
        assert(0u8 & 0x80 == 0 && 0u8 & 0x40 == 0 && 10u8 & 0x80 == 0 && 10u8 & 0x40 == 0)
            by (bit_vector);
    }
    lemma_one_item(y);
    assert(y.bytes() =~= (optional_format(id_format(), true).bytes)(left) + (optional_format(
        id_format(),
        true,
    ).bytes)(right) + x.bytes());
    assert(y.place_strings() =~= Seq::empty());
}

/// An item with a neighbour on the left, on the right or on both sides tells neither parent nor
/// key, even where its info byte speaks of a key: behind the neighbours' ids comes the content,
/// which alone decides.
pub proof fn law_neighbours_stand_for_the_parent(info: u8, left: Id, right: Id, x: Content)
    requires
        left.valid(),
        right.valid(),
        x.valid(),
        info & 0b1111 == x.kind(),
    ensures
        info & 0xc0 == 0x80 ==> is_safe_update(one_item(info, left.bytes() + x.bytes()))
            == is_safe_update(one_content(x.kind(), x.bytes())),
        info & 0xc0 == 0x40 ==> is_safe_update(one_item(info, right.bytes() + x.bytes()))
            == is_safe_update(one_content(x.kind(), x.bytes())),
        info & 0xc0 == 0xc0 ==> is_safe_update(
            one_item(info, left.bytes() + right.bytes() + x.bytes()),
        ) == is_safe_update(one_content(x.kind(), x.bytes())),
{
    lemma_one_content(x);
    let none = Seq::<u8>::empty();
    assert(none + right.bytes() =~= right.bytes());
    assert(left.bytes() + none =~= left.bytes());
    if info & 0xc0 == 0x80 {
        assert(info & 0x80 != 0 && info & 0x40 == 0) by (bit_vector)
            requires
                info & 0xc0 == 0x80,
        ;
        lemma_neighbours(info, Some(left), None, x);
    }
    if info & 0xc0 == 0x40 {
        assert(info & 0x80 == 0 && info & 0x40 != 0) by (bit_vector)
            requires
                info & 0xc0 == 0x40,
        ;
        lemma_neighbours(info, None, Some(right), x);
    }
    if info & 0xc0 == 0xc0 {
        assert(info & 0x80 != 0 && info & 0x40 != 0) by (bit_vector)
            requires
                info & 0xc0 == 0xc0,
        ;
        lemma_neighbours(info, Some(left), Some(right), x);
    }
    reveal(safe);
}

/// An update of one `Any` value.
pub open spec fn one_value(value: Seq<u8>) -> Seq<u8> {
    one_content(8, seq![1u8] + value)
}

proof fn lemma_values(count: Seq<u8>, values: Seq<Value>)
    requires
        is_count(count, values.len()),
        all_valid(value_format(0), values),
    ensures
        safe(one_content(8, count + all_bytes(value_format(0), values)))
            == all_valid_utf8(all_strings(value_format(0), values)),
{
    let x = Content::Values { count, values };
    lemma_one_content(x);
}

proof fn lemma_one_value(v: Value)
    requires
        value_valid(v, 0),
    ensures
        safe(one_value(value_bytes(v))) == all_valid_utf8(value_strings(v)),
{
    lemma_digit(1);
    lemma_single(value_format(0), v);
    lemma_values(seq![1u8], seq![v]);
}

/// All the `Any` values that their count says are walked: they are safe exactly if each alone
/// is.
pub proof fn law_values_stand_side_by_side(count: Seq<u8>, values: Seq<Value>)
    requires
        is_count(count, values.len()),
        all_valid(value_format(0), values),
    ensures
        is_safe_update(one_content(8, count + all_bytes(value_format(0), values))) == forall|i: int|
            0 <= i < values.len() ==> is_safe_update(one_value(value_bytes(#[trigger] values[i]))),
{
    let f = value_format(0);
    lemma_values(count, values);
    lemma_valid_each(f, values);
    assert forall|i: int| 0 <= i < values.len() implies safe(
        one_value(value_bytes(#[trigger] values[i])),
    ) == all_valid_utf8((f.strings)(values[i])) by {
        assert((f.valid)(values[i]));
        lemma_one_value(values[i]);
    }
    reveal(safe);
}

/// Two `Any` values are both walked.
pub proof fn law_two_values(v: Value, w: Value)
    requires
        value_valid(v, 0),
        value_valid(w, 0),
    ensures
        is_safe_update(one_content(8, seq![2u8] + value_bytes(v) + value_bytes(w))) == (
        is_safe_update(one_value(value_bytes(v))) && is_safe_update(one_value(value_bytes(w)))),
{
    lemma_digit(2);
    lemma_double(value_format(0), v, w);
    lemma_values(seq![2u8], seq![v, w]);
    assert(seq![2u8] + value_bytes(v) + value_bytes(w) =~= seq![2u8] + (value_bytes(v)
        + value_bytes(w)));
    lemma_valid_two(value_strings(v), value_strings(w));
    lemma_one_value(v);
    lemma_one_value(w);
    reveal(safe);
}

/// As many nulls as their count says are a safe update, however many.
pub proof fn law_nulls_are_safe(count: Seq<u8>, n: nat)
    requires
        is_count(count, n),
    ensures
        is_safe_update(one_content(8, count + Seq::new(n, |i: int| 126u8))),
        is_safe_update(one_value(seq![117u8] + count + Seq::new(n, |i: int| 126u8))),
{
    let nulls = Seq::new(n, |i: int| Value::Word { tag: 126 });
    lemma_nulls(n);
    lemma_values(count, nulls);
    let list = Value::List { count, items: nulls };
    lemma_one_value(list);
    reveal(safe);
}

proof fn lemma_nulls(n: nat)
    ensures
        ({
            let nulls = Seq::new(n, |i: int| Value::Word { tag: 126 });
            &&& all_bytes(value_format(0), nulls) == Seq::new(n, |i: int| 126u8)
            &&& all_strings(value_format(0), nulls) == Seq::<Seq<u8>>::empty()
            &&& all_valid(value_format(0), nulls)
            &&& items_bytes(nulls) == Seq::new(n, |i: int| 126u8)
            &&& items_strings(nulls) == Seq::<Seq<u8>>::empty()
            &&& items_valid(nulls, 1)
        }),
    decreases n,
{
    let null = Value::Word { tag: 126 };
    let nulls = Seq::new(n, |i: int| Value::Word { tag: 126 });
    assert(value_bytes(null) =~= seq![126u8]);
    assert(value_strings(null) =~= Seq::empty());
    assert(value_valid(null, 0) && value_valid(null, 1));
    if n > 0 {
        assert(nulls[0] == null);
        let fewer = Seq::new((n - 1) as nat, |i: int| Value::Word { tag: 126 });
        lemma_nulls((n - 1) as nat);
        assert(nulls.skip(1) =~= fewer);
        assert(nulls.subrange(1, nulls.len() as int) =~= fewer);
        assert(all_bytes(value_format(0), nulls) =~= Seq::new(n, |i: int| 126u8));
        assert(items_bytes(nulls) =~= Seq::new(n, |i: int| 126u8));
        assert(all_strings(value_format(0), nulls) =~= Seq::empty());
        assert(items_strings(nulls) =~= Seq::empty());
    } else {
        assert(all_bytes(value_format(0), nulls) =~= Seq::new(n, |i: int| 126u8));
        assert(items_bytes(nulls) =~= Seq::new(n, |i: int| 126u8));
    }
}

/// Of the two entries of a map, both keys and both values are checked.
pub proof fn law_map_entries_are_checked(k1: Text, v1: Value, k2: Text, v2: Value)
    requires
        k1.valid() && k2.valid(),
        value_valid(v1, 1) && value_valid(v2, 1),
    ensures
        is_safe_update(
            one_value(
                seq![118u8, 2u8] + k1.bytes() + value_bytes(v1) + k2.bytes() + value_bytes(v2),
            ),
        ) == (valid_utf8(k1.text) && is_safe_update(one_value(value_bytes(v1))) && valid_utf8(
            k2.text,
        ) && is_safe_update(one_value(value_bytes(v2)))),
{
    lemma_digit(2);
    let a = Entry { key: k1, value: v1 };
    let b = Entry { key: k2, value: v2 };
    lemma_two_entries(a, b);
    let v = Value::Record { count: seq![2u8], entries: seq![a, b] };
    lemma_one_value(v);
    assert(value_bytes(v) =~= seq![118u8, 2u8] + k1.bytes() + value_bytes(v1) + k2.bytes()
        + value_bytes(v2));
    lemma_valid_two(entry_strings(a), entry_strings(b));
    lemma_value_shallower(v1, 0);
    lemma_value_shallower(v2, 0);
    lemma_one_value(v1);
    lemma_one_value(v2);
    lemma_valid_two(seq![k1.text], value_strings(v1));
    lemma_valid_two(seq![k2.text], value_strings(v2));
    lemma_valid_one(k1.text);
    lemma_valid_one(k2.text);
    reveal(safe);
}

/// A value that can stand at a depth can stand at a smaller one.
proof fn lemma_value_shallower(v: Value, depth: nat)
    requires
        value_valid(v, depth + 1),
    ensures
        value_valid(v, depth),
    decreases v,
{
    match v {
        Value::Record { entries, .. } => lemma_entries_shallower(entries, depth + 1),
        Value::List { items, .. } => lemma_items_shallower(items, depth + 1),
        _ => {},
    }
}

proof fn lemma_entries_shallower(entries: Seq<Entry>, depth: nat)
    requires
        entries_valid(entries, depth + 1),
    ensures
        entries_valid(entries, depth),
    decreases entries,
{
    if entries.len() > 0 {
        lemma_entry_shallower(entries[0], depth);
        lemma_entries_shallower(entries.subrange(1, entries.len() as int), depth);
    }
}

proof fn lemma_entry_shallower(e: Entry, depth: nat)
    requires
        entry_valid(e, depth + 1),
    ensures
        entry_valid(e, depth),
    decreases e,
{
    lemma_value_shallower(e.value, depth);
}

proof fn lemma_items_shallower(items: Seq<Value>, depth: nat)
    requires
        items_valid(items, depth + 1),
    ensures
        items_valid(items, depth),
    decreases items,
{
    if items.len() > 0 {
        lemma_value_shallower(items[0], depth);
        lemma_items_shallower(items.subrange(1, items.len() as int), depth);
    }
}

proof fn lemma_two_entries(a: Entry, b: Entry)
    ensures
        entries_bytes(seq![a, b]) == a.key.bytes() + value_bytes(a.value) + b.key.bytes()
            + value_bytes(b.value),
        entries_strings(seq![a, b]) == entry_strings(a) + entry_strings(b),
        entries_valid(seq![a, b], 1) == (a.key.valid() && value_valid(a.value, 1) && b.key.valid()
            && value_valid(b.value, 1)),
        entries_bytes(seq![a]) == a.key.bytes() + value_bytes(a.value),
        entries_strings(seq![a]) == entry_strings(a),
        entries_valid(seq![a], 1) == (a.key.valid() && value_valid(a.value, 1)),
{
    let none = Seq::<Entry>::empty();
    assert(seq![a, b].subrange(1, 2) =~= seq![b]);
    assert(seq![b].subrange(1, 1) =~= none);
    assert(seq![a].subrange(1, 1) =~= none);
    assert(entries_bytes(none) =~= Seq::empty());
    assert(entries_strings(none) =~= Seq::empty());
    assert(entries_valid(none, 1));
    assert(entry_bytes(a) == a.key.bytes() + value_bytes(a.value));
    assert(entry_bytes(b) == b.key.bytes() + value_bytes(b.value));
    assert(entry_valid(a, 1) == (a.key.valid() && value_valid(a.value, 1)));
    assert(entry_valid(b, 1) == (b.key.valid() && value_valid(b.value, 1)));
    assert(entries_valid(seq![b], 1) == entry_valid(b, 1));
    assert(entries_valid(seq![a], 1) == entry_valid(a, 1));
    assert(entries_bytes(seq![b]) =~= b.key.bytes() + value_bytes(b.value));
    assert(entries_bytes(seq![a]) =~= a.key.bytes() + value_bytes(a.value));
    assert(entries_strings(seq![b]) =~= entry_strings(b));
    assert(entries_strings(seq![a]) =~= entry_strings(a));
    assert(entries_bytes(seq![a, b]) =~= a.key.bytes() + value_bytes(a.value) + b.key.bytes()
        + value_bytes(b.value));
    assert(entries_strings(seq![a, b]) =~= entry_strings(a) + entry_strings(b));
}

/// The key of a map's entry is checked, and so is its value.
pub proof fn law_map_keys_are_checked(key: Text, v: Value)
    requires
        key.valid(),
        value_valid(v, 1),
    ensures
        is_safe_update(one_value(seq![118u8, 1u8] + key.bytes() + value_bytes(v))) == (valid_utf8(
            key.text,
        ) && is_safe_update(one_value(value_bytes(v)))),
{
    lemma_digit(1);
    let a = Entry { key, value: v };
    lemma_two_entries(a, a);
    let x = Value::Record { count: seq![1u8], entries: seq![a] };
    lemma_one_value(x);
    lemma_value_shallower(v, 0);
    lemma_one_value(v);
    assert(value_bytes(x) =~= seq![118u8, 1u8] + key.bytes() + value_bytes(v));
    lemma_valid_two(seq![key.text], value_strings(v));
    lemma_valid_one(key.text);
    reveal(safe);
}

/// The values of an array are all walked.
pub proof fn law_array_items_are_checked(v: Value, w: Value)
    requires
        value_valid(v, 1) && value_valid(w, 1),
    ensures
        is_safe_update(one_value(seq![117u8, 2u8] + value_bytes(v) + value_bytes(w))) == (
        is_safe_update(one_value(value_bytes(v))) && is_safe_update(one_value(value_bytes(w)))),
{
    lemma_digit(2);
    let items = seq![v, w];
    let none = Seq::<Value>::empty();
    assert(items.subrange(1, 2) =~= seq![w]);
    assert(seq![w].subrange(1, 1) =~= none);
    assert(items_bytes(none) =~= Seq::empty());
    assert(items_strings(none) =~= Seq::empty());
    assert(items_bytes(seq![w]) =~= value_bytes(w));
    assert(items_strings(seq![w]) =~= value_strings(w));
    assert(items_valid(none, 1));
    assert(items_valid(seq![w], 1));
    let x = Value::List { count: seq![2u8], items };
    assert(items_bytes(items) =~= value_bytes(v) + value_bytes(w));
    lemma_one_value(x);
    assert(value_bytes(x) =~= seq![117u8, 2u8] + value_bytes(v) + value_bytes(w));
    lemma_value_shallower(v, 0);
    lemma_value_shallower(w, 0);
    lemma_one_value(v);
    lemma_one_value(w);
    lemma_valid_two(value_strings(v), value_strings(w));
    reveal(safe);
}

/// All the entries of a map that their count says are walked: the map is safe exactly if each
/// key is valid and each value alone is safe.
pub proof fn law_entries_stand_side_by_side(count: Seq<u8>, entries: Seq<Entry>)
    requires
        is_count(count, entries.len()),
        all_valid(entry_format(1), entries),
    ensures
        is_safe_update(one_value(seq![118u8] + count + all_bytes(entry_format(1), entries)))
            == forall|i: int|
            0 <= i < entries.len() ==> valid_utf8((#[trigger] entries[i]).key.text)
                && is_safe_update(one_value(value_bytes(entries[i].value))),
{
    let f = entry_format(1);
    lemma_entries(entries, 1);
    lemma_one_value(Value::Record { count, entries });
    lemma_valid_each(f, entries);
    assert forall|i: int| 0 <= i < entries.len() implies all_valid_utf8(
        (f.strings)(#[trigger] entries[i]),
    ) == (valid_utf8(entries[i].key.text) && safe(one_value(value_bytes(entries[i].value)))) by {
        let e = entries[i];
        assert((f.valid)(e));
        lemma_value_shallower(e.value, 0);
        lemma_one_value(e.value);
        lemma_valid_two(seq![e.key.text], value_strings(e.value));
        lemma_valid_one(e.key.text);
        assert(entry_strings(e) == seq![e.key.text] + value_strings(e.value));
    }
    reveal(safe);
}

/// All the values of an array that their count says are walked: the array is safe exactly if
/// each value alone is.
pub proof fn law_items_stand_side_by_side(count: Seq<u8>, items: Seq<Value>)
    requires
        is_count(count, items.len()),
        all_valid(value_format(1), items),
    ensures
        is_safe_update(one_value(seq![117u8] + count + all_bytes(value_format(1), items)))
            == forall|i: int|
            0 <= i < items.len() ==> is_safe_update(one_value(value_bytes(#[trigger] items[i]))),
{
    let f = value_format(1);
    lemma_items(items, 1);
    lemma_one_value(Value::List { count, items });
    lemma_valid_each(f, items);
    assert forall|i: int| 0 <= i < items.len() implies all_valid_utf8(
        (f.strings)(#[trigger] items[i]),
    ) == safe(one_value(value_bytes(items[i]))) by {
        assert((f.valid)(items[i]));
        lemma_value_shallower(items[i], 0);
        lemma_one_value(items[i]);
    }
    reveal(safe);
}

/// A string in an `Any` value is checked, a buffer is not.
pub proof fn law_any_strings_are_checked(text: Text)
    requires
        text.valid(),
    ensures
        is_safe_update(one_value(seq![119u8] + text.bytes())) == valid_utf8(text.text),
        is_safe_update(one_value(seq![116u8] + text.bytes())),
{
    lemma_one_value(Value::Text { text });
    lemma_one_value(Value::Buffer { data: text });
    lemma_valid_one(text.text);
    reveal(safe);
}

/// The guid of a subdocument is checked, and so are its options.
pub proof fn law_guids_are_checked(guid: Text, options: Value)
    requires
        guid.valid(),
        value_valid(options, 0),
    ensures
        is_safe_update(one_content(9, guid.bytes() + value_bytes(options))) == (valid_utf8(
            guid.text,
        ) && is_safe_update(one_value(value_bytes(options)))),
{
    lemma_one_content(Content::Doc { guid, options });
    lemma_one_value(options);
    lemma_valid_two(seq![guid.text], value_strings(options));
    lemma_valid_one(guid.text);
    reveal(safe);
}

/// The name of an XML element is checked. The other shared types are a tag alone.
pub proof fn law_element_names_are_checked(name: Text)
    requires
        name.valid(),
    ensures
        is_safe_update(one_content(7, seq![3u8] + name.bytes())) == valid_utf8(name.text),
        forall|tag: u8|
            tag == 0 || tag == 1 || tag == 2 || tag == 4 || tag == 5 || tag == 6 || tag == 9 || tag
                == 15 ==> is_safe_update(#[trigger] one_content(7, seq![tag])),
{
    lemma_one_content(Content::Shared { type_ref: TypeRef::Element { name } });
    lemma_valid_one(name.text);
    assert forall|tag: u8|
        tag == 0 || tag == 1 || tag == 2 || tag == 4 || tag == 5 || tag == 6 || tag == 9 || tag
            == 15 implies safe(#[trigger] one_content(7, seq![tag])) by {
        lemma_one_content(Content::Shared { type_ref: TypeRef::Plain { tag } });
    }
    reveal(safe);
}

/// JSON content holds one string more than its count says, and each is checked.
pub proof fn law_json_strings_are_checked(count: Seq<u8>, strings: Seq<Text>)
    requires
        strings.len() >= 1,
        is_count(count, (strings.len() - 1) as nat),
        all_valid(text_format(), strings),
    ensures
        is_safe_update(one_content(2, count + all_bytes(text_format(), strings))) == forall|i: int|
            0 <= i < strings.len() ==> valid_utf8((#[trigger] strings[i]).text),
{
    let f = text_format();
    let x = Content::Json { count, texts: strings };
    lemma_one_content(x);
    lemma_valid_each(f, strings);
    assert forall|i: int| 0 <= i < strings.len() implies all_valid_utf8(
        (f.strings)(#[trigger] strings[i]),
    ) == valid_utf8(strings[i].text) by {
        lemma_valid_one(strings[i].text);
    }
    reveal(safe);
}

/// Two JSON strings behind the count 1 are both checked.
pub proof fn law_two_json_strings(a: Text, b: Text)
    requires
        a.valid(),
        b.valid(),
    ensures
        is_safe_update(one_content(2, seq![1u8] + a.bytes() + b.bytes())) == (valid_utf8(a.text)
            && valid_utf8(b.text)),
{
    lemma_digit(1);
    let f = text_format();
    lemma_double(f, a, b);
    let strings = seq![a, b];
    lemma_one_content(Content::Json { count: seq![1u8], texts: strings });
    assert(seq![1u8] + a.bytes() + b.bytes() =~= seq![1u8] + (a.bytes() + b.bytes()));
    lemma_valid_two(seq![a.text], seq![b.text]);
    lemma_valid_one(a.text);
    lemma_valid_one(b.text);
    reveal(safe);
}

/// Text, embedded JSON and both strings of a format are checked; binary content is not, and of
/// deleted content there is only a length.
pub proof fn law_contents_are_checked(a: Text, b: Text, len: Seq<u8>)
    requires
        a.valid(),
        b.valid(),
        is_unsigned(len),
    ensures
        is_safe_update(one_content(4, a.bytes())) == valid_utf8(a.text),
        is_safe_update(one_content(5, a.bytes())) == valid_utf8(a.text),
        is_safe_update(one_content(6, a.bytes() + b.bytes())) == (valid_utf8(a.text) && valid_utf8(
            b.text,
        )),
        is_safe_update(one_content(3, a.bytes())),
        is_safe_update(one_content(1, len)),
{
    lemma_one_content(Content::Text { text: a });
    lemma_one_content(Content::Embed { json: a });
    lemma_one_content(Content::Mark { key: a, value: b });
    lemma_one_content(Content::Binary { data: a });
    lemma_one_content(Content::Deleted { len });
    lemma_valid_one(a.text);
    lemma_valid_one(b.text);
    lemma_valid_two(seq![a.text], seq![b.text]);
    assert(seq![a.text] + seq![b.text] =~= seq![a.text, b.text]);
    reveal(safe);
}

/// Numbers in an `Any` value: an integer of at most ten bytes, four bytes, and twice eight.
pub proof fn law_any_numbers_are_safe(digits: Seq<u8>, four: Seq<u8>, eight: Seq<u8>)
    requires
        is_signed(digits),
        four.len() == 4,
        eight.len() == 8,
    ensures
        is_safe_update(one_value(seq![125u8] + digits)),
        is_safe_update(one_value(seq![124u8] + four)),
        is_safe_update(one_value(seq![123u8] + eight)),
        is_safe_update(one_value(seq![122u8] + eight)),
        is_safe_update(one_value(seq![127u8])),
        is_safe_update(one_value(seq![126u8])),
        is_safe_update(one_value(seq![121u8])),
        is_safe_update(one_value(seq![120u8])),
{
    lemma_one_value(Value::Integer { digits });
    lemma_one_value(Value::Fixed { tag: 124, bytes: four });
    lemma_one_value(Value::Fixed { tag: 123, bytes: eight });
    lemma_one_value(Value::Fixed { tag: 122, bytes: eight });
    lemma_one_value(Value::Word { tag: 127 });
    lemma_one_value(Value::Word { tag: 126 });
    lemma_one_value(Value::Word { tag: 121 });
    lemma_one_value(Value::Word { tag: 120 });
    reveal(safe);
}

} // verus!
