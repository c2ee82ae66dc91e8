//! The grammar reads what is written, and nothing else: a rule ends well exactly on the bytes
//! of the data that it is for, passes the strings of that data and leaves what follows.

use vstd::prelude::*;
use vstd::utf8::valid_utf8;

use crate::grammar::{
    all_utf8, binary, client, counted, followed_by, id, number, repeated, string, texts, unread,
    verdict, Field, Rule, Walk,
};
use crate::model::{
    all_bytes, all_strings, all_valid, data_format, id_format, is_count, is_unsigned, is_varint,
    number_format, text_format, Format, Id, Text,
};
use crate::reject::Reject;
use crate::wire::{
    buffer, exact, lemma_number_front, lemma_var_front, lemma_var_local, lemma_var_size_bounds,
    lemma_var_size_ends, passed, var_bits_u32, var_size, var_u32, var_u64, MAX_VAR_BYTES,
};

verus! {

/// The walk ends well, has passed the strings given and leaves `t`.
pub open spec fn reads(walk: Walk, strings: Seq<Seq<u8>>, t: Seq<u8>) -> bool {
    walk.end is Ok && walk.left == t && texts(walk.strings) == strings
}

/// `s` is `x` written down, and then `rest`.
pub open spec fn written<T>(f: Format<T>, x: T, s: Seq<u8>, rest: Seq<u8>) -> bool {
    (f.valid)(x) && s == (f.bytes)(x) + rest
}

/// The rule is for data of this kind: it reads all that is so written, whatever follows, and
/// it ends well on nothing else.
pub open spec fn describes<T>(f: Format<T>, rule: Rule) -> bool {
    &&& forall|x: T, t: Seq<u8>|
        (f.valid)(x) ==> #[trigger] reads(rule((f.bytes)(x) + t), (f.strings)(x), t)
    &&& forall|s: Seq<u8>|
        (#[trigger] rule(s)).end is Ok ==> exists|x: T| #[trigger] written(f, x, s, rule(s).left)
}

/// All the strings are valid UTF-8.
pub open spec fn all_valid_utf8(strings: Seq<Seq<u8>>) -> bool {
    forall|i: int| 0 <= i < strings.len() ==> valid_utf8(#[trigger] strings[i])
}

/// How a walk that reads data to its end is judged: by the strings alone.
pub proof fn lemma_reads_verdict(walk: Walk, strings: Seq<Seq<u8>>, t: Seq<u8>)
    requires
        reads(walk, strings, t),
    ensures
        all_utf8(walk.strings) == all_valid_utf8(strings),
        verdict(walk) == if all_valid_utf8(strings) {
            Ok::<(), Reject>(())
        } else {
            Err::<(), Reject>(Reject::InvalidUtf8)
        },
        all_valid_utf8(strings) ==> unread(walk) == t,
{
    let w = walk.strings;
    assert(texts(w).len() == w.len());
    if all_utf8(w) {
        assert forall|i: int| 0 <= i < strings.len() implies valid_utf8(#[trigger] strings[i]) by {
            assert(strings[i] == w[i].text);
        }
    }
    if all_valid_utf8(strings) {
        assert forall|i: int| 0 <= i < w.len() implies valid_utf8((#[trigger] w[i]).text) by {
            assert(strings[i] == w[i].text);
        }
    }
    if let Ok(nothing) = walk.end {
        assert(nothing == ());
    }
}

pub proof fn lemma_texts_two_parts(a: Seq<Field>, b: Seq<Field>)
    ensures
        texts(a + b) == texts(a) + texts(b),
{
    assert(texts(a + b) =~= texts(a) + texts(b));
}

/// Reading in two steps.
pub proof fn lemma_reads_then(
    first: Walk,
    next: Rule,
    a: Seq<Seq<u8>>,
    rest: Seq<u8>,
    b: Seq<Seq<u8>>,
    t: Seq<u8>,
)
    requires
        reads(first, a, rest),
        reads(next(rest), b, t),
    ensures
        reads(followed_by(first, next), a + b, t),
{
    lemma_texts_two_parts(first.strings, next(rest).strings);
}

pub proof fn lemma_var_size_more(s: Seq<u8>, limit: nat, more: nat)
    requires
        limit <= more,
        var_size(s, limit) is Some,
    ensures
        var_size(s, more) == var_size(s, limit),
    decreases limit,
{
    if s[0] >= 0x80 {
        lemma_var_size_more(s.skip(1), (limit - 1) as nat, (more - 1) as nat);
    }
}

/// The bytes of a variable length integer have the form of one.
pub proof fn lemma_var_size_form(s: Seq<u8>, limit: nat)
    ensures
        var_size(s, limit) matches Some(n) ==> n <= s.len() && is_varint(s.take(n as int), limit),
    decreases limit,
{
    lemma_var_size_bounds(s, limit);
    if let Some(n) = var_size(s, limit) {
        let front = s.take(n as int);
        if s[0] >= 0x80 {
            lemma_var_size_form(s.skip(1), (limit - 1) as nat);
            let others = s.skip(1).take(n - 1);
            assert forall|i: int| 0 <= i < front.len() - 1 implies #[trigger] front[i] >= 0x80 by {
                if i > 0 {
                    assert(others[i - 1] >= 0x80);
                }
            }
            assert(others[n - 2] < 0x80);
        }
    }
}

/// What has the form of a variable length integer is one, whatever follows.
pub proof fn lemma_varint_size(bytes: Seq<u8>, most: nat)
    requires
        is_varint(bytes, most),
    ensures
        var_size(bytes, most) == Some(bytes.len()),
{
    lemma_var_size_ends(bytes, bytes.len());
    lemma_var_size_more(bytes, bytes.len(), most);
}

/// An unsigned number is read whatever follows.
pub proof fn lemma_unsigned(bytes: Seq<u8>, t: Seq<u8>)
    requires
        is_unsigned(bytes),
    ensures
        var_u32(bytes + t) == Some((var_bits_u32(bytes, bytes.len()), t)),
        var_u64(bytes + t) matches Some((_, rest)) && rest == t,
{
    lemma_varint_size(bytes, 11);
    lemma_number_front(bytes, t);
    lemma_var_local(bytes, t);
}

/// What is read as an unsigned number is one.
pub proof fn lemma_unsigned_only(s: Seq<u8>)
    ensures
        var_u32(s) matches Some((n, rest)) ==> {
            &&& is_count(passed(s, rest), n as nat)
            &&& s == passed(s, rest) + rest
        },
        var_u64(s) matches Some((_, rest)) ==> {
            &&& is_unsigned(passed(s, rest))
            &&& s == passed(s, rest) + rest
        },
{
    if let Some(n) = var_size(s, MAX_VAR_BYTES as nat) {
        lemma_var_size_bounds(s, MAX_VAR_BYTES as nat);
        lemma_var_size_form(s, MAX_VAR_BYTES as nat);
        lemma_var_front(s, s.skip(n as int));
        let front = s.take(n as int);
        assert(passed(s, s.skip(n as int)) =~= front);
        lemma_unsigned(front, s.skip(n as int));
    }
}

pub proof fn lemma_number_described()
    ensures
        describes(number_format(), |s: Seq<u8>| number(s)),
        describes(number_format(), |s: Seq<u8>| client(s)),
{
    let f = number_format();
    assert forall|x: Seq<u8>, t: Seq<u8>| (f.valid)(x) implies #[trigger] reads(
        number((f.bytes)(x) + t),
        (f.strings)(x),
        t,
    ) by {
        lemma_unsigned(x, t);
        assert(texts(Seq::<Field>::empty()) =~= Seq::empty());
    }
    assert forall|x: Seq<u8>, t: Seq<u8>| (f.valid)(x) implies #[trigger] reads(
        client((f.bytes)(x) + t),
        (f.strings)(x),
        t,
    ) by {
        lemma_unsigned(x, t);
        assert(texts(Seq::<Field>::empty()) =~= Seq::empty());
    }
    assert forall|s: Seq<u8>| (#[trigger] number(s)).end is Ok implies exists|x: Seq<u8>|
        #[trigger] written(f, x, s, number(s).left) by {
        lemma_unsigned_only(s);
        assert(written(f, passed(s, number(s).left), s, number(s).left));
    }
    assert forall|s: Seq<u8>| (#[trigger] client(s)).end is Ok implies exists|x: Seq<u8>|
        #[trigger] written(f, x, s, client(s).left) by {
        lemma_unsigned_only(s);
        assert(written(f, passed(s, client(s).left), s, client(s).left));
    }
}

/// A buffer is a length and as many bytes.
pub proof fn lemma_buffer(x: Text, t: Seq<u8>)
    requires
        x.valid(),
    ensures
        buffer(x.bytes() + t) == Some((x.text, t)),
{
    lemma_unsigned(x.len, x.text + t);
    assert(x.bytes() + t =~= x.len + (x.text + t));
    assert((x.text + t).take(x.text.len() as int) =~= x.text);
    assert((x.text + t).skip(x.text.len() as int) =~= t);
}

/// What is read as a buffer is one.
pub proof fn lemma_buffer_only(s: Seq<u8>) -> (x: Text)
    requires
        buffer(s) is Some,
    ensures
        x.valid(),
        buffer(s) matches Some((content, rest)) && x.text == content && s == x.bytes() + rest,
{
    lemma_unsigned_only(s);
    let (n, rest) = var_u32(s)->0;
    let (content, behind) = exact(rest, n as nat)->0;
    let x = Text { len: passed(s, rest), text: content };
    assert(rest =~= content + behind);
    assert(s =~= x.bytes() + behind);
    x
}

pub proof fn lemma_text_described()
    ensures
        describes(text_format(), |s: Seq<u8>| string(s)),
        describes(data_format(), |s: Seq<u8>| binary(s)),
{
    let f = text_format();
    let g = data_format();
    assert forall|x: Text, t: Seq<u8>| (f.valid)(x) implies #[trigger] reads(
        string((f.bytes)(x) + t),
        (f.strings)(x),
        t,
    ) by {
        lemma_buffer(x, t);
        assert(texts(string(x.bytes() + t).strings) =~= seq![x.text]);
    }
    assert forall|x: Text, t: Seq<u8>| (g.valid)(x) implies #[trigger] reads(
        binary((g.bytes)(x) + t),
        (g.strings)(x),
        t,
    ) by {
        lemma_buffer(x, t);
        assert(texts(Seq::<Field>::empty()) =~= Seq::empty());
    }
    assert forall|s: Seq<u8>| (#[trigger] string(s)).end is Ok implies exists|x: Text|
        #[trigger] written(f, x, s, string(s).left) by {
        let x = lemma_buffer_only(s);
        assert(written(f, x, s, string(s).left));
    }
    assert forall|s: Seq<u8>| (#[trigger] binary(s)).end is Ok implies exists|x: Text|
        #[trigger] written(g, x, s, binary(s).left) by {
        let x = lemma_buffer_only(s);
        assert(written(g, x, s, binary(s).left));
    }
}

/// Data repeated is read one by one.
pub proof fn lemma_repeated_reads<T>(f: Format<T>, rule: Rule, xs: Seq<T>, t: Seq<u8>)
    requires
        describes(f, rule),
        all_valid(f, xs),
    ensures
        reads(repeated(xs.len(), rule, all_bytes(f, xs) + t), all_strings(f, xs), t),
    decreases xs.len(),
{
    if xs.len() == 0 {
        assert(all_bytes(f, xs) + t =~= t);
        assert(texts(Seq::<Field>::empty()) =~= Seq::empty());
    } else {
        let others = xs.skip(1);
        let rest = all_bytes(f, others) + t;
        assert forall|i: int| 0 <= i < others.len() implies (f.valid)(#[trigger] others[i]) by {
            assert(others[i] == xs[i + 1]);
        }
        lemma_repeated_reads(f, rule, others, t);
        assert(all_bytes(f, xs) + t =~= (f.bytes)(xs[0]) + rest);
        assert((f.valid)(xs[0]));
        assert(reads(rule((f.bytes)(xs[0]) + rest), (f.strings)(xs[0]), rest));
        lemma_reads_then(
            rule((f.bytes)(xs[0]) + rest),
            |rest: Seq<u8>| repeated((xs.len() - 1) as nat, rule, rest),
            (f.strings)(xs[0]),
            rest,
            all_strings(f, others),
            t,
        );
    }
}

/// What is read by a repetition is data repeated.
pub proof fn lemma_repeated_only<T>(f: Format<T>, rule: Rule, n: nat, s: Seq<u8>) -> (xs: Seq<T>)
    requires
        describes(f, rule),
        repeated(n, rule, s).end is Ok,
    ensures
        xs.len() == n,
        all_valid(f, xs),
        s == all_bytes(f, xs) + repeated(n, rule, s).left,
    decreases n,
{
    if n == 0 {
        let xs = Seq::<T>::empty();
        assert(all_bytes(f, xs) + s =~= s);
        xs
    } else {
        let rest = rule(s).left;
        assert(rule(s).end is Ok);
        let x = choose|x: T| #[trigger] written(f, x, s, rest);
        assert(written(f, x, s, rest));
        let others = lemma_repeated_only(f, rule, (n - 1) as nat, rest);
        let xs = seq![x] + others;
        assert(xs.skip(1) =~= others);
        assert forall|i: int| 0 <= i < xs.len() implies (f.valid)(#[trigger] xs[i]) by {
            if i > 0 {
                assert(xs[i] == others[i - 1]);
            }
        }
        assert(s =~= all_bytes(f, xs) + repeated(n, rule, s).left);
        xs
    }
}

/// Data behind its count is read in full.
pub proof fn lemma_counted_reads<T>(
    f: Format<T>,
    rule: Rule,
    extra: nat,
    count: Seq<u8>,
    xs: Seq<T>,
    t: Seq<u8>,
)
    requires
        describes(f, rule),
        all_valid(f, xs),
        xs.len() >= extra,
        is_count(count, (xs.len() - extra) as nat),
    ensures
        reads(counted(rule, extra, count + all_bytes(f, xs) + t), all_strings(f, xs), t),
{
    lemma_unsigned(count, all_bytes(f, xs) + t);
    assert(count + all_bytes(f, xs) + t =~= count + (all_bytes(f, xs) + t));
    lemma_repeated_reads(f, rule, xs, t);
}

/// What is read as data behind its count is that.
pub proof fn lemma_counted_only<T>(f: Format<T>, rule: Rule, extra: nat, s: Seq<u8>) -> (r: (
    Seq<u8>,
    Seq<T>,
))
    requires
        describes(f, rule),
        counted(rule, extra, s).end is Ok,
    ensures
        r.1.len() >= extra,
        is_count(r.0, (r.1.len() - extra) as nat),
        all_valid(f, r.1),
        s == r.0 + all_bytes(f, r.1) + counted(rule, extra, s).left,
{
    lemma_unsigned_only(s);
    let (n, rest) = var_u32(s)->0;
    let xs = lemma_repeated_only(f, rule, n as nat + extra, rest);
    let count = passed(s, rest);
    assert(s =~= count + all_bytes(f, xs) + counted(rule, extra, s).left);
    (count, xs)
}

pub proof fn lemma_id_described()
    ensures
        describes(id_format(), |s: Seq<u8>| id(s)),
{
    lemma_number_described();
    let f = id_format();
    let n = number_format();
    let one_client = |s: Seq<u8>| client(s);
    let one_number = |s: Seq<u8>| number(s);
    assert forall|x: Id, t: Seq<u8>| (f.valid)(x) implies #[trigger] reads(
        id((f.bytes)(x) + t),
        (f.strings)(x),
        t,
    ) by {
        let rest = x.clock + t;
        assert(x.bytes() + t =~= x.client + rest);
        assert(reads(one_client((n.bytes)(x.client) + rest), (n.strings)(x.client), rest));
        assert(reads(one_number((n.bytes)(x.clock) + t), (n.strings)(x.clock), t));
        let none = Seq::<Seq<u8>>::empty();
        lemma_reads_then(
            client(x.client + rest),
            |rest: Seq<u8>| number(rest),
            none,
            rest,
            none,
            t,
        );
        assert(none + none =~= none);
    }
    assert forall|s: Seq<u8>| (#[trigger] id(s)).end is Ok implies exists|x: Id|
        #[trigger] written(f, x, s, id(s).left) by {
        let rest = one_client(s).left;
        let a = choose|a: Seq<u8>| #[trigger] written(n, a, s, rest);
        assert(written(n, a, s, rest));
        assert(one_number(rest).end is Ok);
        let b = choose|b: Seq<u8>| #[trigger] written(n, b, rest, number(rest).left);
        assert(written(n, b, rest, one_number(rest).left));
        let x = Id { client: a, clock: b };
        assert(s =~= x.bytes() + id(s).left);
        assert(written(f, x, s, id(s).left));
    }
}

} // verus!
