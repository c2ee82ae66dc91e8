//! The numbers that the grammar only passes over: client ids, clocks and lengths. Whatever
//! their values are, and however they are spelled, the walk goes on alike.

use vstd::prelude::*;
use vstd::utf8::valid_utf8;

use crate::grammar::{
    after, all_blocks, all_utf8, any, any_at, any_body, binary, block, client, client_blocks,
    client_ranges, closing, content, counted, end_of_bytes, entry, fixed, followed_by, gives_up, id,
    id_range, id_set, integer, is_safe_update, item, kept, number, optional_id, parent, placement,
    range, repeated, stops, string, texts, type_ref, update, verdict, Field, Piece, Rule, Walk,
    HAS_ORIGIN, HAS_RIGHT_ORIGIN, MAX_ANY_DEPTH,
};
use crate::reject::Reject;
use crate::wire::{
    buffer_stop, is_number, lemma_buffer_front, lemma_number_front, lemma_stops_whole,
    lemma_var_front, lemma_var_i64_front, passed, var_i64_stop, var_stop, var_u32,
};

verus! {

/// The pieces, one behind the other.
pub open spec fn joined(pieces: Seq<Piece>) -> Seq<u8>
    decreases pieces.len(),
{
    if pieces.len() == 0 {
        Seq::empty()
    } else {
        pieces[0].bytes + joined(pieces.skip(1))
    }
}

/// The piece `b` stands for `a`: for a number that is only passed over any other may stand,
/// for other bytes only the same.
pub open spec fn respells(a: Piece, b: Piece) -> bool {
    &&& a.is_value == b.is_value
    &&& if a.is_value {
        is_number(b.bytes)
    } else {
        b.bytes == a.bytes
    }
}

/// The pieces `b` stand for the pieces `a`, one for one.
pub open spec fn respelled(a: Seq<Piece>, b: Seq<Piece>) -> bool {
    &&& a.len() == b.len()
    &&& forall|i: int| 0 <= i < a.len() ==> respells(#[trigger] a[i], b[i])
}

/// The pieces of `walk` and what it leaves are the bytes `s`, and its numbers are whole.
spec fn covers(walk: Walk, s: Seq<u8>) -> bool {
    joined(walk.pieces) + walk.left == s && respelled(walk.pieces, walk.pieces)
}

/// The walk `again` reads the pieces `q` and leaves `t`, and is the same as `walk` otherwise.
spec fn alike(again: Walk, walk: Walk, q: Seq<Piece>, t: Seq<u8>) -> bool {
    &&& texts(again.strings) == texts(walk.strings)
    &&& again.pieces == q
    &&& again.end == walk.end
    &&& again.left == t
}

/// Of the walk `walk` over `s`, and the walk `again` over `q` and then `t`: if `q` stands for
/// what the first read, and `t` for what it left, the second is alike. What a walk that ended
/// well left may be anything.
spec fn blind_at(walk: Walk, again: Walk, s: Seq<u8>, q: Seq<Piece>, t: Seq<u8>) -> bool {
    &&& covers(walk, s)
    &&& respelled(walk.pieces, q) && (walk.end is Ok || t == walk.left) ==> alike(
        again,
        walk,
        q,
        t,
    )
}

/// The rule does not look at the values of the numbers that it passes over.
spec fn is_blind(rule: Rule) -> bool {
    forall|s: Seq<u8>, q: Seq<Piece>, t: Seq<u8>| #[trigger]
        blind_at(rule(s), rule(joined(q) + t), s, q, t)
}

proof fn lemma_joined_parts(a: Seq<Piece>, b: Seq<Piece>)
    ensures
        joined(a + b) == joined(a) + joined(b),
    decreases a.len(),
{
    if a.len() == 0 {
        assert(a + b =~= b);
        assert(joined(a) + joined(b) =~= joined(b));
    } else {
        assert((a + b).skip(1) =~= a.skip(1) + b);
        lemma_joined_parts(a.skip(1), b);
        assert(joined(a + b) =~= joined(a) + joined(b));
    }
}

proof fn lemma_joined_one(piece: Piece)
    ensures
        joined(seq![piece]) == piece.bytes,
{
    reveal_with_fuel(joined, 2);
    assert(joined(seq![piece]) =~= piece.bytes);
}

/// What stands for one piece is one piece.
proof fn lemma_respelled_one(piece: Piece, q: Seq<Piece>)
    requires
        respelled(seq![piece], q),
    ensures
        q == seq![q[0]],
        respells(piece, q[0]),
        joined(q) == q[0].bytes,
{
    assert(respells(seq![piece][0], q[0]));
    assert(q =~= seq![q[0]]);
    lemma_joined_one(q[0]);
}

/// What stands for two parts is what stands for the first, and what stands for the second.
proof fn lemma_respelled_parts(a: Seq<Piece>, b: Seq<Piece>, q: Seq<Piece>)
    requires
        respelled(a + b, q),
    ensures
        respelled(a, q.take(a.len() as int)),
        respelled(b, q.skip(a.len() as int)),
        q == q.take(a.len() as int) + q.skip(a.len() as int),
        joined(q) == joined(q.take(a.len() as int)) + joined(q.skip(a.len() as int)),
{
    let q1 = q.take(a.len() as int);
    let q2 = q.skip(a.len() as int);
    assert(q =~= q1 + q2);
    lemma_joined_parts(q1, q2);
    assert forall|i: int| 0 <= i < a.len() implies respells(#[trigger] a[i], q1[i]) by {
        assert(respells((a + b)[i], q[i]));
    }
    assert forall|i: int| 0 <= i < b.len() implies respells(#[trigger] b[i], q2[i]) by {
        assert(respells((a + b)[i + a.len()], q[i + a.len()]));
    }
}

/// Pieces that stand for themselves in two parts do so together.
proof fn lemma_covers_parts(a: Seq<Piece>, b: Seq<Piece>)
    requires
        respelled(a, a),
        respelled(b, b),
    ensures
        respelled(a + b, a + b),
{
    assert forall|i: int| 0 <= i < (a + b).len() implies respells(
        #[trigger] (a + b)[i],
        (a + b)[i],
    ) by {
        if i < a.len() {
            assert((a + b)[i] == a[i]);
        } else {
            assert((a + b)[i] == b[i - a.len()]);
        }
    }
}

proof fn lemma_texts_parts(a: Seq<Field>, b: Seq<Field>)
    ensures
        texts(a + b) == texts(a) + texts(b),
{
    assert(texts(a + b) =~= texts(a) + texts(b));
}

/// A walk that reads nothing.
proof fn lemma_nothing_read(walk: Walk, s: Seq<u8>, q: Seq<Piece>, t: Seq<u8>)
    requires
        walk.pieces.len() == 0,
        walk.left == s,
    ensures
        covers(walk, s),
        respelled(walk.pieces, q) ==> q == Seq::<Piece>::empty() && joined(q) + t == t,
{
    assert(joined(walk.pieces) + walk.left =~= s);
    if respelled(walk.pieces, q) {
        assert(q =~= Seq::empty());
        assert(joined(q) + t =~= t);
    }
}

/// A walk that gives up reads what it looked at and leaves the rest.
proof fn lemma_gives_up(walk: Walk, s: Seq<u8>, stop: Seq<u8>, q: Seq<Piece>)
    requires
        walk == gives_up(s, stop),
        passed(s, stop) + stop == s,
    ensures
        covers(walk, s),
        respelled(walk.pieces, q) ==> q == walk.pieces && joined(q) + stop == s,
{
    assert(walk.pieces =~= seq![kept(passed(s, stop))]);
    lemma_one_read(walk, s, q);
    if respelled(walk.pieces, q) {
        assert(q =~= walk.pieces);
    }
}

/// A walk that reads one piece.
proof fn lemma_one_read(walk: Walk, s: Seq<u8>, q: Seq<Piece>)
    requires
        walk.pieces.len() == 1,
        walk.pieces[0].bytes + walk.left == s,
        walk.pieces[0].is_value ==> is_number(walk.pieces[0].bytes),
    ensures
        covers(walk, s),
        respelled(walk.pieces, q) ==> q == seq![q[0]] && respells(walk.pieces[0], q[0]) && joined(q)
            == q[0].bytes,
{
    assert(walk.pieces =~= seq![walk.pieces[0]]);
    lemma_joined_one(walk.pieces[0]);
    if respelled(walk.pieces, q) {
        lemma_respelled_one(walk.pieces[0], q);
    }
}

/// A walk behind bytes that are kept: `s` is `read` and then `rest`.
proof fn lemma_after_blind(
    read: Seq<u8>,
    walk: Walk,
    again: Walk,
    rest: Seq<u8>,
    q: Seq<Piece>,
    t: Seq<u8>,
)
    requires
        blind_at(walk, again, rest, q.skip(1), t),
    ensures
        blind_at(after(read, walk), after(read, again), read + rest, q, t),
        respelled(after(read, walk).pieces, q) ==> joined(q) + t == read + (joined(q.skip(1)) + t),
{
    let head = seq![kept(read)];
    lemma_joined_one(kept(read));
    lemma_joined_parts(head, walk.pieces);
    lemma_covers_parts(head, walk.pieces);
    assert(joined(head + walk.pieces) + walk.left =~= read + rest);
    if respelled(head + walk.pieces, q) {
        lemma_respelled_parts(head, walk.pieces, q);
        lemma_respelled_one(kept(read), q.take(1));
        assert(joined(q) + t =~= read + (joined(q.skip(1)) + t));
        assert(q =~= head + q.skip(1));
    }
}

/// A walk in two steps.
proof fn lemma_followed_by_blind(
    first: Rule,
    next: Rule,
    s: Seq<u8>,
    q: Seq<Piece>,
    t: Seq<u8>,
)
    requires
        is_blind(first),
        is_blind(next),
    ensures
        blind_at(
            followed_by(first(s), next),
            followed_by(first(joined(q) + t), next),
            s,
            q,
            t,
        ),
{
    let q2 = q.skip(first(s).pieces.len() as int);
    assert(blind_at(next(first(s).left), next(joined(q2) + t), first(s).left, q2, t));
    lemma_step_blind(first, next, s, q, t);
}

/// A walk in two steps, where the second is known to be blind at this place.
proof fn lemma_step_blind(first: Rule, next: Rule, s: Seq<u8>, q: Seq<Piece>, t: Seq<u8>)
    requires
        is_blind(first),
        ({
            let rest = first(s).left;
            let q2 = q.skip(first(s).pieces.len() as int);
            first(s).end is Ok ==> blind_at(next(rest), next(joined(q2) + t), rest, q2, t)
        }),
    ensures
        blind_at(
            followed_by(first(s), next),
            followed_by(first(joined(q) + t), next),
            s,
            q,
            t,
        ),
{
    let w1 = first(s);
    if w1.end is Ok {
        let w2 = next(w1.left);
        let n = w1.pieces.len() as int;
        let q1 = q.take(n);
        let q2 = q.skip(n);
        let u = joined(q2) + t;
        assert(blind_at(w1, first(joined(q1) + u), s, q1, u));
        lemma_joined_parts(w1.pieces, w2.pieces);
        lemma_covers_parts(w1.pieces, w2.pieces);
        assert(joined(w1.pieces + w2.pieces) + w2.left =~= joined(w1.pieces) + (joined(w2.pieces)
            + w2.left));
        lemma_texts_parts(w1.strings, w2.strings);
        if respelled(w1.pieces + w2.pieces, q) {
            lemma_respelled_parts(w1.pieces, w2.pieces, q);
            assert(joined(q) + t =~= joined(q1) + u);
            lemma_texts_parts(first(joined(q1) + u).strings, next(u).strings);
        }
    } else {
        assert(blind_at(w1, first(joined(q) + t), s, q, t));
    }
}

proof fn lemma_repeated_blind(n: nat, rule: Rule, s: Seq<u8>, q: Seq<Piece>, t: Seq<u8>)
    requires
        is_blind(rule),
    ensures
        blind_at(repeated(n, rule, s), repeated(n, rule, joined(q) + t), s, q, t),
    decreases n,
{
    if n == 0 {
        lemma_nothing_read(repeated(n, rule, s), s, q, t);
    } else {
        let next = |rest: Seq<u8>| repeated((n - 1) as nat, rule, rest);
        let q2 = q.skip(rule(s).pieces.len() as int);
        lemma_repeated_blind((n - 1) as nat, rule, rule(s).left, q2, t);
        lemma_step_blind(rule, next, s, q, t);
    }
}

proof fn lemma_counted_blind(rule: Rule, extra: nat, s: Seq<u8>, q: Seq<Piece>, t: Seq<u8>)
    requires
        is_blind(rule),
    ensures
        blind_at(counted(rule, extra, s), counted(rule, extra, joined(q) + t), s, q, t),
{
    match var_u32(s) {
        Some((n, rest)) => {
            let u = joined(q.skip(1)) + t;
            lemma_repeated_blind(n as nat + extra, rule, rest, q.skip(1), t);
            lemma_after_blind(
                passed(s, rest),
                repeated(n as nat + extra, rule, rest),
                repeated(n as nat + extra, rule, u),
                rest,
                q,
                t,
            );
            lemma_var_front(s, u);
        },
        None => {
            lemma_stops_whole(s);
            lemma_gives_up(counted(rule, extra, s), s, var_stop(s), q);
        },
    }
}

proof fn lemma_number_at(s: Seq<u8>, q: Seq<Piece>, t: Seq<u8>)
    ensures
        blind_at(number(s), number(joined(q) + t), s, q, t),
        blind_at(client(s), client(joined(q) + t), s, q, t),
{
    if var_u32(s) is Some {
        lemma_var_front(s, t);
        lemma_one_read(number(s), s, q);
        lemma_one_read(client(s), s, q);
        if respelled(number(s).pieces, q) || respelled(client(s).pieces, q) {
            lemma_number_front(q[0].bytes, t);
        }
    } else {
        lemma_stops_whole(s);
        lemma_gives_up(number(s), s, var_stop(s), q);
        lemma_gives_up(client(s), s, var_stop(s), q);
    }
}

proof fn lemma_number_blind()
    ensures
        is_blind(|s: Seq<u8>| number(s)),
        is_blind(|s: Seq<u8>| client(s)),
{
    assert forall|s: Seq<u8>, q: Seq<Piece>, t: Seq<u8>|
        #[trigger] blind_at(number(s), number(joined(q) + t), s, q, t) by {
        lemma_number_at(s, q, t);
    }
    assert forall|s: Seq<u8>, q: Seq<Piece>, t: Seq<u8>|
        #[trigger] blind_at(client(s), client(joined(q) + t), s, q, t) by {
        lemma_number_at(s, q, t);
    }
}

proof fn lemma_string_at(s: Seq<u8>, q: Seq<Piece>, t: Seq<u8>)
    ensures
        blind_at(string(s), string(joined(q) + t), s, q, t),
        blind_at(binary(s), binary(joined(q) + t), s, q, t),
{
    lemma_buffer_front(s, t);
    let w = string(s);
    if w.end is Ok {
        lemma_one_read(w, s, q);
        lemma_one_read(binary(s), s, q);
        if respelled(w.pieces, q) {
            assert(texts(string(joined(q) + t).strings) =~= texts(w.strings));
        }
    } else {
        lemma_stops_whole(s);
        lemma_gives_up(w, s, buffer_stop(s), q);
        assert(binary(s) == w);
    }
}

proof fn lemma_string_blind()
    ensures
        is_blind(|s: Seq<u8>| string(s)),
        is_blind(|s: Seq<u8>| binary(s)),
{
    assert forall|s: Seq<u8>, q: Seq<Piece>, t: Seq<u8>|
        #[trigger] blind_at(string(s), string(joined(q) + t), s, q, t) by {
        lemma_string_at(s, q, t);
    }
    assert forall|s: Seq<u8>, q: Seq<Piece>, t: Seq<u8>|
        #[trigger] blind_at(binary(s), binary(joined(q) + t), s, q, t) by {
        lemma_string_at(s, q, t);
    }
}

proof fn lemma_fixed_blind(s: Seq<u8>, n: nat, q: Seq<Piece>, t: Seq<u8>)
    ensures
        blind_at(fixed(s, n), fixed(joined(q) + t, n), s, q, t),
{
    if n <= s.len() {
        let bytes = s.take(n as int);
        assert(bytes + s.skip(n as int) =~= s);
        lemma_one_read(fixed(s, n), s, q);
        assert((bytes + t).take(n as int) =~= bytes);
        assert((bytes + t).skip(n as int) =~= t);
    } else {
        lemma_nothing_read(fixed(s, n), s, q, t);
    }
}

proof fn lemma_integer_blind(s: Seq<u8>, q: Seq<Piece>, t: Seq<u8>)
    ensures
        blind_at(integer(s), integer(joined(q) + t), s, q, t),
{
    lemma_var_i64_front(s, t);
    if integer(s).end is Ok {
        lemma_one_read(integer(s), s, q);
    } else {
        lemma_stops_whole(s);
        lemma_gives_up(integer(s), s, var_i64_stop(s), q);
    }
}

proof fn lemma_id_blind()
    ensures
        is_blind(|s: Seq<u8>| id(s)),
{
    lemma_number_blind();
    assert forall|s: Seq<u8>, q: Seq<Piece>, t: Seq<u8>|
        #[trigger] blind_at(id(s), id(joined(q) + t), s, q, t) by {
        lemma_followed_by_blind(
            |s: Seq<u8>| client(s),
            |rest: Seq<u8>| number(rest),
            s,
            q,
            t,
        );
    }
}

proof fn lemma_entry_blind(inner: Rule)
    requires
        is_blind(inner),
    ensures
        is_blind(entry(inner)),
{
    lemma_string_blind();
    assert forall|s: Seq<u8>, q: Seq<Piece>, t: Seq<u8>|
        #[trigger] blind_at(entry(inner)(s), entry(inner)(joined(q) + t), s, q, t) by {
        lemma_followed_by_blind(|s: Seq<u8>| string(s), inner, s, q, t);
    }
}

proof fn lemma_any_body_blind(tag: u8, inner: Rule, s: Seq<u8>, q: Seq<Piece>, t: Seq<u8>)
    requires
        is_blind(inner),
    ensures
        blind_at(any_body(tag, inner, s), any_body(tag, inner, joined(q) + t), s, q, t),
{
    lemma_integer_blind(s, q, t);
    lemma_fixed_blind(s, 4, q, t);
    lemma_fixed_blind(s, 8, q, t);
    lemma_string_blind();
    let one_string = |s: Seq<u8>| string(s);
    let one_binary = |s: Seq<u8>| binary(s);
    assert(blind_at(one_string(s), one_string(joined(q) + t), s, q, t));
    assert(blind_at(one_binary(s), one_binary(joined(q) + t), s, q, t));
    lemma_counted_blind(inner, 0, s, q, t);
    lemma_entry_blind(inner);
    lemma_counted_blind(entry(inner), 0, s, q, t);
    if any_body(tag, inner, s).pieces.len() == 0 && any_body(tag, inner, s).left == s {
        lemma_nothing_read(any_body(tag, inner, s), s, q, t);
    }
}

/// The first byte, and the others.
proof fn lemma_head(s: Seq<u8>, u: Seq<u8>)
    requires
        s.len() > 0,
    ensures
        s.take(1) + s.skip(1) == s,
        s.take(1) + u != Seq::<u8>::empty(),
        (s.take(1) + u)[0] == s[0],
        (s.take(1) + u).take(1) == s.take(1),
        (s.take(1) + u).skip(1) == u,
{
    assert(s.take(1) + s.skip(1) =~= s);
    assert((s.take(1) + u).len() > 0);
    assert((s.take(1) + u).take(1) =~= s.take(1));
    assert((s.take(1) + u).skip(1) =~= u);
}

proof fn lemma_any_blind(depth: nat)
    ensures
        is_blind(any_at(depth)),
    decreases MAX_ANY_DEPTH + 1 - depth,
{
    assert forall|s: Seq<u8>, q: Seq<Piece>, t: Seq<u8>|
        #[trigger] blind_at(any_at(depth)(s), any_at(depth)(joined(q) + t), s, q, t) by {
        if depth > MAX_ANY_DEPTH || s.len() == 0 {
            lemma_nothing_read(any(depth, s), s, q, t);
        } else {
            lemma_any_blind(depth + 1);
            let inner = any_at(depth + 1);
            let u = joined(q.skip(1)) + t;
            lemma_any_body_blind(s[0], inner, s.skip(1), q.skip(1), t);
            lemma_after_blind(
                s.take(1),
                any_body(s[0], inner, s.skip(1)),
                any_body(s[0], inner, u),
                s.skip(1),
                q,
                t,
            );
            lemma_head(s, u);
        }
    }
}

proof fn lemma_type_ref_blind(s: Seq<u8>, q: Seq<Piece>, t: Seq<u8>)
    ensures
        blind_at(type_ref(s), type_ref(joined(q) + t), s, q, t),
{
    if s.len() == 0 {
        lemma_nothing_read(type_ref(s), s, q, t);
    } else if type_ref(s).end is Ok && type_ref(s).strings.len() == 0 {
        lemma_head(s, t);
        lemma_one_read(type_ref(s), s, q);
    } else {
        let u = joined(q.skip(1)) + t;
        lemma_head(s, u);
        lemma_string_blind();
        let one_string = |s: Seq<u8>| string(s);
        assert(blind_at(one_string(s.skip(1)), one_string(u), s.skip(1), q.skip(1), t));
        lemma_after_blind(s.take(1), string(s.skip(1)), string(u), s.skip(1), q, t);
        let stop = stops(Reject::BadTag, s.skip(1));
        lemma_nothing_read(stop, s.skip(1), q.skip(1), t);
        let again = stops(Reject::BadTag, u);
        lemma_after_blind(s.take(1), stop, again, s.skip(1), q, t);
    }
}

proof fn lemma_content_blind(info: u8)
    ensures
        is_blind(|s: Seq<u8>| content(info, s)),
{
    lemma_number_blind();
    lemma_string_blind();
    lemma_any_blind(0);
    let one_number = |s: Seq<u8>| number(s);
    let one_string = |s: Seq<u8>| string(s);
    let one_binary = |s: Seq<u8>| binary(s);
    assert forall|s: Seq<u8>, q: Seq<Piece>, t: Seq<u8>|
        #[trigger] blind_at(content(info, s), content(info, joined(q) + t), s, q, t) by {
        assert(blind_at(one_number(s), one_number(joined(q) + t), s, q, t));
        assert(blind_at(one_string(s), one_string(joined(q) + t), s, q, t));
        assert(blind_at(one_binary(s), one_binary(joined(q) + t), s, q, t));
        lemma_counted_blind(|rest: Seq<u8>| string(rest), 1, s, q, t);
        lemma_counted_blind(any_at(0), 0, s, q, t);
        lemma_followed_by_blind(one_string, |rest: Seq<u8>| string(rest), s, q, t);
        lemma_followed_by_blind(one_string, any_at(0), s, q, t);
        lemma_type_ref_blind(s, q, t);
        if content(info, s).pieces.len() == 0 && content(info, s).left == s {
            lemma_nothing_read(content(info, s), s, q, t);
        }
    }
}

proof fn lemma_parent_blind()
    ensures
        is_blind(|s: Seq<u8>| parent(s)),
{
    lemma_string_blind();
    lemma_id_blind();
    let one_string = |s: Seq<u8>| string(s);
    let one_id = |s: Seq<u8>| id(s);
    assert forall|s: Seq<u8>, q: Seq<Piece>, t: Seq<u8>|
        #[trigger] blind_at(parent(s), parent(joined(q) + t), s, q, t) by {
        match var_u32(s) {
            Some((n, rest)) => {
                let u = joined(q.skip(1)) + t;
                assert(blind_at(one_string(rest), one_string(u), rest, q.skip(1), t));
                assert(blind_at(one_id(rest), one_id(u), rest, q.skip(1), t));
                lemma_after_blind(passed(s, rest), string(rest), string(u), rest, q, t);
                lemma_after_blind(passed(s, rest), id(rest), id(u), rest, q, t);
                lemma_var_front(s, u);
            },
            None => {
                lemma_stops_whole(s);
                lemma_gives_up(parent(s), s, var_stop(s), q);
            },
        }
    }
}

proof fn lemma_optional_id_blind(present: bool)
    ensures
        is_blind(|s: Seq<u8>| optional_id(present, s)),
{
    lemma_id_blind();
    let one_id = |s: Seq<u8>| id(s);
    assert forall|s: Seq<u8>, q: Seq<Piece>, t: Seq<u8>|
        #[trigger] blind_at(
            optional_id(present, s),
            optional_id(present, joined(q) + t),
            s,
            q,
            t,
        ) by {
        if present {
            assert(blind_at(one_id(s), one_id(joined(q) + t), s, q, t));
        } else {
            lemma_nothing_read(optional_id(present, s), s, q, t);
        }
    }
}

proof fn lemma_placement_blind(info: u8)
    ensures
        is_blind(|s: Seq<u8>| placement(info, s)),
{
    lemma_string_blind();
    lemma_parent_blind();
    let one_parent = |s: Seq<u8>| parent(s);
    assert forall|s: Seq<u8>, q: Seq<Piece>, t: Seq<u8>|
        #[trigger] blind_at(placement(info, s), placement(info, joined(q) + t), s, q, t) by {
        assert(blind_at(one_parent(s), one_parent(joined(q) + t), s, q, t));
        lemma_followed_by_blind(one_parent, |rest: Seq<u8>| string(rest), s, q, t);
        if info & (HAS_ORIGIN | HAS_RIGHT_ORIGIN) != 0 {
            lemma_nothing_read(placement(info, s), s, q, t);
        }
    }
}

proof fn lemma_item_blind(info: u8, s: Seq<u8>, q: Seq<Piece>, t: Seq<u8>)
    ensures
        blind_at(item(info, s), item(info, joined(q) + t), s, q, t),
{
    let left = |s: Seq<u8>| optional_id(info & HAS_ORIGIN != 0, s);
    let right = |s: Seq<u8>| optional_id(info & HAS_RIGHT_ORIGIN != 0, s);
    let place = |s: Seq<u8>| placement(info, s);
    let third = |s3: Seq<u8>| content(info, s3);
    let second = |s2: Seq<u8>| followed_by(placement(info, s2), third);
    let first = |s1: Seq<u8>| followed_by(optional_id(info & HAS_RIGHT_ORIGIN != 0, s1), second);
    lemma_optional_id_blind(info & HAS_ORIGIN != 0);
    lemma_optional_id_blind(info & HAS_RIGHT_ORIGIN != 0);
    lemma_placement_blind(info);
    lemma_content_blind(info);
    assert(is_blind(second)) by {
        assert forall|s: Seq<u8>, q: Seq<Piece>, t: Seq<u8>| #[trigger]
            blind_at(second(s), second(joined(q) + t), s, q, t) by {
            lemma_followed_by_blind(place, third, s, q, t);
        }
    }
    assert(is_blind(first)) by {
        assert forall|s: Seq<u8>, q: Seq<Piece>, t: Seq<u8>| #[trigger]
            blind_at(first(s), first(joined(q) + t), s, q, t) by {
            lemma_followed_by_blind(right, second, s, q, t);
        }
    }
    lemma_followed_by_blind(left, first, s, q, t);
}

proof fn lemma_block_blind()
    ensures
        is_blind(|s: Seq<u8>| block(s)),
{
    lemma_number_blind();
    let one_number = |s: Seq<u8>| number(s);
    assert forall|s: Seq<u8>, q: Seq<Piece>, t: Seq<u8>|
        #[trigger] blind_at(block(s), block(joined(q) + t), s, q, t) by {
        if s.len() == 0 {
            lemma_nothing_read(block(s), s, q, t);
        } else {
            let u = joined(q.skip(1)) + t;
            assert(blind_at(one_number(s.skip(1)), one_number(u), s.skip(1), q.skip(1), t));
            lemma_item_blind(s[0], s.skip(1), q.skip(1), t);
            lemma_after_blind(s.take(1), number(s.skip(1)), number(u), s.skip(1), q, t);
            lemma_after_blind(s.take(1), item(s[0], s.skip(1)), item(s[0], u), s.skip(1), q, t);
            lemma_head(s, u);
        }
    }
}

proof fn lemma_client_blocks_blind()
    ensures
        is_blind(|s: Seq<u8>| client_blocks(s)),
{
    lemma_block_blind();
    lemma_id_blind();
    assert forall|s: Seq<u8>, q: Seq<Piece>, t: Seq<u8>|
        #[trigger] blind_at(client_blocks(s), client_blocks(joined(q) + t), s, q, t) by {
        match var_u32(s) {
            Some((n, rest)) => {
                let u = joined(q.skip(1)) + t;
                let head = |s: Seq<u8>| id(s);
                let next = |s1: Seq<u8>| repeated(n as nat, |s2: Seq<u8>| block(s2), s1);
                let q1 = q.skip(1);
                let q2 = q1.skip(id(rest).pieces.len() as int);
                lemma_repeated_blind(n as nat, |s2: Seq<u8>| block(s2), id(rest).left, q2, t);
                lemma_step_blind(head, next, rest, q1, t);
                lemma_after_blind(
                    passed(s, rest),
                    followed_by(id(rest), next),
                    followed_by(id(u), next),
                    rest,
                    q,
                    t,
                );
                lemma_var_front(s, u);
            },
            None => {
                lemma_stops_whole(s);
                lemma_gives_up(client_blocks(s), s, var_stop(s), q);
            },
        }
    }
}

proof fn lemma_client_ranges_blind()
    ensures
        is_blind(|s: Seq<u8>| client_ranges(s)),
{
    lemma_number_blind();
    let one_number = |s: Seq<u8>| number(s);
    assert forall|s: Seq<u8>, q: Seq<Piece>, t: Seq<u8>|
        #[trigger] blind_at(range(s), range(joined(q) + t), s, q, t) by {
        lemma_followed_by_blind(one_number, |rest: Seq<u8>| number(rest), s, q, t);
    }
    assert(is_blind(|s: Seq<u8>| range(s)));
    assert forall|s: Seq<u8>, q: Seq<Piece>, t: Seq<u8>|
        #[trigger] blind_at(id_range(s), id_range(joined(q) + t), s, q, t) by {
        lemma_counted_blind(|rest: Seq<u8>| range(rest), 0, s, q, t);
    }
    assert(is_blind(|s: Seq<u8>| id_range(s)));
    assert forall|s: Seq<u8>, q: Seq<Piece>, t: Seq<u8>|
        #[trigger] blind_at(client_ranges(s), client_ranges(joined(q) + t), s, q, t) by {
        lemma_followed_by_blind(
            |s: Seq<u8>| client(s),
            |rest: Seq<u8>| id_range(rest),
            s,
            q,
            t,
        );
    }
}

/// The blocks of all clients, and the delete set.
proof fn lemma_parts_blind()
    ensures
        is_blind(|s: Seq<u8>| all_blocks(s)),
        is_blind(|s: Seq<u8>| id_set(s)),
{
    lemma_client_blocks_blind();
    lemma_client_ranges_blind();
    assert forall|s: Seq<u8>, q: Seq<Piece>, t: Seq<u8>|
        #[trigger] blind_at(all_blocks(s), all_blocks(joined(q) + t), s, q, t) by {
        lemma_counted_blind(|rest: Seq<u8>| client_blocks(rest), 0, s, q, t);
    }
    assert forall|s: Seq<u8>, q: Seq<Piece>, t: Seq<u8>|
        #[trigger] blind_at(id_set(s), id_set(joined(q) + t), s, q, t) by {
        lemma_counted_blind(|rest: Seq<u8>| client_ranges(rest), 0, s, q, t);
    }
}

/// What follows the blocks, with the same bytes left over.
proof fn lemma_closing_blind(s: Seq<u8>, q: Seq<Piece>)
    ensures
        blind_at(closing(s), closing(joined(q) + closing(s).left), s, q, closing(s).left),
{
    lemma_parts_blind();
    let t = closing(s).left;
    let rest = id_set(s).left;
    let q2 = q.skip(id_set(s).pieces.len() as int);
    lemma_nothing_read(end_of_bytes(rest), rest, q2, t);
    lemma_step_blind(|s: Seq<u8>| id_set(s), |rest: Seq<u8>| end_of_bytes(rest), s, q, t);
}

proof fn lemma_update_blind(s: Seq<u8>, q: Seq<Piece>)
    ensures
        blind_at(update(s), update(joined(q) + update(s).left), s, q, update(s).left),
{
    lemma_parts_blind();
    let t = update(s).left;
    let q2 = q.skip(all_blocks(s).pieces.len() as int);
    lemma_closing_blind(all_blocks(s).left, q2);
    lemma_step_blind(|s: Seq<u8>| all_blocks(s), |rest: Seq<u8>| closing(rest), s, q, t);
}

/// Walks that pass the same strings are valid alike.
proof fn lemma_same_texts(a: Seq<Field>, b: Seq<Field>)
    requires
        texts(a) == texts(b),
        all_utf8(a),
    ensures
        all_utf8(b),
{
    assert(texts(a).len() == a.len() && texts(b).len() == b.len());
    assert forall|i: int| 0 <= i < b.len() implies valid_utf8((#[trigger] b[i]).text) by {
        assert(texts(a)[i] == a[i].text && texts(b)[i] == b[i].text);
    }
}

/// The pieces that a walk over an update reads, and what it leaves, are its bytes; and the
/// pieces that are values are whole numbers.
pub proof fn law_pieces_are_the_bytes(bytes: Seq<u8>)
    ensures
        joined(update(bytes).pieces) + update(bytes).left == bytes,
        respelled(update(bytes).pieces, update(bytes).pieces),
{
    lemma_update_blind(bytes, update(bytes).pieces);
}

/// The values of client ids, clocks and lengths never change the judgement. Put any other
/// numbers in their place, in any spelling, and keep all other bytes: the update is accepted
/// or refused as before.
pub proof fn law_values_do_not_matter(bytes: Seq<u8>, pieces: Seq<Piece>)
    requires
        respelled(update(bytes).pieces, pieces),
    ensures
        verdict(update(joined(pieces) + update(bytes).left)) == verdict(update(bytes)),
        is_safe_update(joined(pieces) + update(bytes).left) == is_safe_update(bytes),
{
    let other = joined(pieces) + update(bytes).left;
    lemma_update_blind(bytes, pieces);
    if all_utf8(update(bytes).strings) {
        lemma_same_texts(update(bytes).strings, update(other).strings);
    }
    if all_utf8(update(other).strings) {
        lemma_same_texts(update(other).strings, update(bytes).strings);
    }
}

} // verus!
