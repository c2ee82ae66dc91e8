//! The primitive encodings of the lib0 version 1 wire format, as functions of the bytes
//! that are still unread: variable length integers and length-prefixed buffers.

use vstd::prelude::*;

verus! {

/// The most bytes that an unsigned variable length integer may take.
pub const MAX_VAR_BYTES: usize = 11;

/// The most bytes that a signed variable length integer may take.
pub const MAX_SIGNED_VAR_BYTES: usize = 10;

/// How many bytes the variable length integer at the front of `s` takes: some bytes with
/// their highest bit set, then one without. `None` if no such byte is among the first
/// `limit` bytes.
pub open spec fn var_size(s: Seq<u8>, limit: nat) -> Option<nat>
    decreases limit,
{
    if limit == 0 || s.len() == 0 {
        None
    } else if s[0] < 0x80 {
        Some(1)
    } else {
        match var_size(s.skip(1), (limit - 1) as nat) {
            Some(n) => Some(n + 1),
            None => None,
        }
    }
}

/// The 32-bit number that the first `n` bytes of `s` denote: each byte brings seven bits,
/// the lowest first. Past the 32nd bit the position wraps around.
pub open spec fn var_bits_u32(s: Seq<u8>, n: nat) -> u32
    decreases n,
{
    if n == 0 {
        0
    } else {
        var_bits_u32(s, (n - 1) as nat) | (((s[n - 1] & 0x7f) as u32) << ((7 * (n - 1)) % 32))
    }
}

/// The 64-bit number that the first `n` bytes of `s` denote: as [`var_bits_u32`], wrapping
/// around past the 64th bit.
pub open spec fn var_bits_u64(s: Seq<u8>, n: nat) -> u64
    decreases n,
{
    if n == 0 {
        0
    } else {
        var_bits_u64(s, (n - 1) as nat) | (((s[n - 1] & 0x7f) as u64) << ((7 * (n - 1)) % 64))
    }
}

/// The 32-bit variable length integer at the front of `s`, and what follows it.
pub open spec fn var_u32(s: Seq<u8>) -> Option<(u32, Seq<u8>)> {
    match var_size(s, MAX_VAR_BYTES as nat) {
        Some(n) => Some((var_bits_u32(s, n), s.skip(n as int))),
        None => None,
    }
}

/// The 64-bit variable length integer at the front of `s`, and what follows it.
pub open spec fn var_u64(s: Seq<u8>) -> Option<(u64, Seq<u8>)> {
    match var_size(s, MAX_VAR_BYTES as nat) {
        Some(n) => Some((var_bits_u64(s, n), s.skip(n as int))),
        None => None,
    }
}

/// The signed integer at the front of `s` goes on past its tenth byte, where its bits no
/// longer have a place in 64 bits.
pub open spec fn signed_overruns(s: Seq<u8>) -> bool {
    s.len() > MAX_SIGNED_VAR_BYTES && forall|i: int|
        0 <= i < MAX_SIGNED_VAR_BYTES ==> #[trigger] s[i] >= 0x80
}

/// The signed integer at the front of `s` is the negative of a magnitude whose highest bit,
/// the 64th, is the only one set. In 64 signed bits that magnitude is -2^63 already, and
/// negating it overflows. The first byte holds the sign (`0x40`) and the six lowest bits, the
/// tenth byte the two highest.
pub open spec fn signed_negates_min(s: Seq<u8>) -> bool {
    &&& s.len() >= MAX_SIGNED_VAR_BYTES
    &&& s[0] == 0xc0
    &&& forall|i: int| 1 <= i < MAX_SIGNED_VAR_BYTES - 1 ==> #[trigger] s[i] == 0x80
    &&& s[9] < 0x80
    &&& s[9] % 4 == 2
}

/// What follows the signed variable length integer at the front of `s`. There is none if the
/// integer does not end within ten bytes, or if it is the negative of the magnitude 2^63.
pub open spec fn var_i64(s: Seq<u8>) -> Option<Seq<u8>> {
    match var_size(s, MAX_SIGNED_VAR_BYTES as nat) {
        Some(n) => if signed_negates_min(s) {
            None
        } else {
            Some(s.skip(n as int))
        },
        None => None,
    }
}

/// Where an unsigned integer that does not end is given up: behind the last byte that it may
/// take, or at the end of the bytes.
pub open spec fn var_stop(s: Seq<u8>) -> Seq<u8> {
    s.skip(
        if s.len() < MAX_VAR_BYTES {
            s.len() as int
        } else {
            MAX_VAR_BYTES as int
        },
    )
}

/// Where a signed integer that cannot be read is given up: behind the bytes that show it. One
/// that ends, but cannot be negated, has shown it with its last byte; one that goes on, with
/// its eleventh.
pub open spec fn var_i64_stop(s: Seq<u8>) -> Seq<u8> {
    match var_size(s, MAX_SIGNED_VAR_BYTES as nat) {
        Some(n) => s.skip(n as int),
        None => var_stop(s),
    }
}

/// The first `n` bytes of `s`, and what follows them.
pub open spec fn exact(s: Seq<u8>, n: nat) -> Option<(Seq<u8>, Seq<u8>)> {
    if n <= s.len() {
        Some((s.take(n as int), s.skip(n as int)))
    } else {
        None
    }
}

/// The length-prefixed buffer at the front of `s`: its content, and what follows it.
pub open spec fn buffer(s: Seq<u8>) -> Option<(Seq<u8>, Seq<u8>)> {
    match var_u32(s) {
        Some((len, rest)) => exact(rest, len as nat),
        None => None,
    }
}

/// Where a buffer that cannot be read is given up: behind its length, or where the length
/// itself is given up.
pub open spec fn buffer_stop(s: Seq<u8>) -> Seq<u8> {
    match var_u32(s) {
        Some((_, rest)) => rest,
        None => var_stop(s),
    }
}

/// What was read of `s` where `rest` is left.
pub open spec fn passed(s: Seq<u8>, rest: Seq<u8>) -> Seq<u8> {
    s.take(s.len() - rest.len())
}

/// A variable length integer lies within the bytes and within its limit.
pub proof fn lemma_var_size_bounds(s: Seq<u8>, limit: nat)
    ensures
        var_size(s, limit) matches Some(n) ==> 1 <= n <= s.len() && n <= limit,
    decreases limit,
{
    if limit > 0 && s.len() > 0 && s[0] >= 0x80 {
        lemma_var_size_bounds(s.skip(1), (limit - 1) as nat);
    }
}

/// An integer whose first `limit` bytes all have their highest bit set does not end.
pub proof fn lemma_var_size_none(s: Seq<u8>, limit: nat)
    requires
        limit <= s.len(),
        forall|i: int| 0 <= i < limit ==> #[trigger] s[i] >= 0x80,
    ensures
        var_size(s, limit) is None,
    decreases limit,
{
    if limit > 0 {
        assert forall|i: int| 0 <= i < limit - 1 implies #[trigger] s.skip(1)[i] >= 0x80 by {
            assert(s[i + 1] >= 0x80);
        }
        lemma_var_size_none(s.skip(1), (limit - 1) as nat);
    }
}

/// All the bytes of an integer that does not end have their highest bit set.
pub proof fn lemma_var_size_goes_on(s: Seq<u8>, limit: nat)
    requires
        var_size(s, limit) is None,
    ensures
        forall|i: int| 0 <= i < limit && i < s.len() ==> #[trigger] s[i] >= 0x80,
    decreases limit,
{
    if limit > 0 && s.len() > 0 {
        lemma_var_size_goes_on(s.skip(1), (limit - 1) as nat);
        assert forall|i: int| 0 <= i < limit && i < s.len() implies #[trigger] s[i] >= 0x80 by {
            if i > 0 {
                assert(s.skip(1)[i - 1] >= 0x80);
            }
        }
    }
}

/// An integer ends with the first byte that does not have its highest bit set.
pub proof fn lemma_var_size_ends(s: Seq<u8>, n: nat)
    requires
        1 <= n <= s.len(),
        forall|i: int| 0 <= i < n - 1 ==> #[trigger] s[i] >= 0x80,
        s[n - 1] < 0x80,
    ensures
        var_size(s, n) == Some(n),
    decreases n,
{
    if n > 1 {
        assert(s[0] >= 0x80);
        assert forall|i: int| 0 <= i < n - 2 implies #[trigger] s.skip(1)[i] >= 0x80 by {
            assert(s[i + 1] >= 0x80);
        }
        lemma_var_size_ends(s.skip(1), (n - 1) as nat);
    }
}

/// A byte without its highest bit is a variable length integer by itself, and denotes itself.
pub proof fn lemma_var_single(s: Seq<u8>)
    requires
        s.len() > 0,
        s[0] < 0x80,
    ensures
        var_u32(s) == Some((s[0] as u32, s.skip(1))),
        var_u64(s) == Some((s[0] as u64, s.skip(1))),
{
    let b = s[0];
    reveal_with_fuel(var_bits_u32, 2);
    reveal_with_fuel(var_bits_u64, 2);
    assert(0u32 | (((b & 0x7f) as u32) << 0) == b as u32) by (bit_vector)
        requires
            b < 0x80,
    ;
    assert(0u64 | (((b & 0x7f) as u64) << 0) == b as u64) by (bit_vector)
        requires
            b < 0x80,
    ;
}

/// The last byte of a variable length integer is the first without its highest bit.
pub proof fn lemma_var_size_last(s: Seq<u8>, limit: nat)
    ensures
        var_size(s, limit) matches Some(n) ==> 1 <= n <= s.len() && s[n - 1] < 0x80,
    decreases limit,
{
    if limit > 0 && s.len() > 0 && s[0] >= 0x80 {
        lemma_var_size_last(s.skip(1), (limit - 1) as nat);
    }
}

/// Bytes behind a variable length integer do not change its size.
pub proof fn lemma_var_size_local(s: Seq<u8>, t: Seq<u8>, limit: nat)
    requires
        var_size(s, limit) is Some,
    ensures
        var_size(s + t, limit) == var_size(s, limit),
    decreases limit,
{
    if s[0] >= 0x80 {
        assert((s + t).skip(1) =~= s.skip(1) + t);
        lemma_var_size_local(s.skip(1), t, (limit - 1) as nat);
    }
}

/// Bytes behind a variable length integer do not change its value.
proof fn lemma_var_bits_local(s: Seq<u8>, t: Seq<u8>, n: nat)
    requires
        n <= s.len(),
    ensures
        var_bits_u32(s + t, n) == var_bits_u32(s, n),
        var_bits_u64(s + t, n) == var_bits_u64(s, n),
    decreases n,
{
    if n > 0 {
        lemma_var_bits_local(s, t, (n - 1) as nat);
    }
}

/// Bytes behind what was read do not change it.
pub proof fn lemma_passed_local(s: Seq<u8>, rest: Seq<u8>, t: Seq<u8>)
    requires
        rest.len() <= s.len(),
    ensures
        passed(s + t, rest + t) == passed(s, rest),
{
    assert(passed(s + t, rest + t) =~= passed(s, rest));
}

/// Bytes behind an unsigned integer stay behind it.
pub proof fn lemma_var_local(s: Seq<u8>, t: Seq<u8>)
    ensures
        var_u32(s) matches Some((value, rest)) ==> {
            &&& var_u32(s + t) == Some((value, rest + t))
            &&& rest.len() < s.len()
            &&& passed(s + t, rest + t) == passed(s, rest)
        },
        var_u64(s) matches Some((value, rest)) ==> {
            &&& var_u64(s + t) == Some((value, rest + t))
            &&& passed(s + t, rest + t) == passed(s, rest)
        },
{
    if let Some(n) = var_size(s, MAX_VAR_BYTES as nat) {
        lemma_var_size_bounds(s, MAX_VAR_BYTES as nat);
        lemma_var_size_local(s, t, MAX_VAR_BYTES as nat);
        lemma_var_bits_local(s, t, n);
        assert((s + t).skip(n as int) =~= s.skip(n as int) + t);
        lemma_passed_local(s, s.skip(n as int), t);
    }
}

/// Bytes behind a signed integer stay behind it.
pub proof fn lemma_var_i64_local(s: Seq<u8>, t: Seq<u8>)
    ensures
        var_i64(s) matches Some(rest) ==> {
            &&& var_i64(s + t) == Some(rest + t)
            &&& passed(s + t, rest + t) == passed(s, rest)
        },
{
    if let Some(n) = var_size(s, MAX_SIGNED_VAR_BYTES as nat) {
        lemma_var_size_bounds(s, MAX_SIGNED_VAR_BYTES as nat);
        lemma_var_size_last(s, MAX_SIGNED_VAR_BYTES as nat);
        lemma_var_size_local(s, t, MAX_SIGNED_VAR_BYTES as nat);
        assert((s + t).skip(n as int) =~= s.skip(n as int) + t);
        lemma_passed_local(s, s.skip(n as int), t);
        assert(signed_negates_min(s + t) ==> signed_negates_min(s)) by {
            if signed_negates_min(s + t) {
                assert((s + t)[n - 1] == s[n - 1]);
                assert forall|i: int| 1 <= i < MAX_SIGNED_VAR_BYTES - 1 implies #[trigger] s[i]
                    == 0x80 by {
                    assert((s + t)[i] == 0x80);
                }
            }
        }
    }
}

/// Bytes behind a fixed number of bytes stay behind them.
pub proof fn lemma_exact_local(s: Seq<u8>, t: Seq<u8>, n: nat)
    ensures
        exact(s, n) matches Some((content, rest)) ==> exact(s + t, n) == Some((content, rest + t)),
{
    if n <= s.len() {
        assert((s + t).take(n as int) =~= s.take(n as int));
        assert((s + t).skip(n as int) =~= s.skip(n as int) + t);
    }
}

/// Bytes behind a buffer stay behind it.
pub proof fn lemma_buffer_local(s: Seq<u8>, t: Seq<u8>)
    ensures
        buffer(s) matches Some((content, rest)) ==> {
            &&& buffer(s + t) == Some((content, rest + t))
            &&& passed(s + t, rest + t) == passed(s, rest)
        },
{
    lemma_var_local(s, t);
    if let Some((len, rest)) = var_u32(s) {
        lemma_exact_local(rest, t, len as nat);
        if let Some((_, behind)) = exact(rest, len as nat) {
            lemma_passed_local(s, behind, t);
        }
    }
}

/// The bytes are one whole unsigned integer.
pub open spec fn is_number(bytes: Seq<u8>) -> bool {
    var_size(bytes, MAX_VAR_BYTES as nat) == Some(bytes.len())
}

/// What was read, and what is left, are the bytes.
pub proof fn lemma_passed_whole(s: Seq<u8>, n: nat)
    requires
        n <= s.len(),
    ensures
        passed(s, s.skip(n as int)) == s.take(n as int),
        passed(s, s.skip(n as int)) + s.skip(n as int) == s,
{
    assert(s.take(n as int) + s.skip(n as int) =~= s);
}

/// What was read where a number or a buffer is given up, and what is left, are the bytes.
pub proof fn lemma_stops_whole(s: Seq<u8>)
    ensures
        passed(s, var_stop(s)) + var_stop(s) == s,
        passed(s, var_i64_stop(s)) + var_i64_stop(s) == s,
        passed(s, buffer_stop(s)) + buffer_stop(s) == s,
{
    lemma_var_size_bounds(s, MAX_VAR_BYTES as nat);
    lemma_var_size_bounds(s, MAX_SIGNED_VAR_BYTES as nat);
    assert forall|n: nat| n <= s.len() implies passed(s, #[trigger] s.skip(n as int)) + s.skip(
        n as int,
    ) == s by {
        lemma_passed_whole(s, n);
    }
}

/// A variable length integer needs no bytes behind its last.
proof fn lemma_var_size_front(s: Seq<u8>, limit: nat)
    ensures
        var_size(s, limit) matches Some(n) ==> var_size(s.take(n as int), limit) == Some(n),
    decreases limit,
{
    lemma_var_size_bounds(s, limit);
    if let Some(n) = var_size(s, limit) {
        if s[0] >= 0x80 {
            lemma_var_size_front(s.skip(1), (limit - 1) as nat);
            lemma_var_size_bounds(s.skip(1), (limit - 1) as nat);
            assert(s.take(n as int).skip(1) =~= s.skip(1).take(n - 1));
        }
    }
}

/// A whole number is read as such, whatever follows.
pub proof fn lemma_number_front(bytes: Seq<u8>, t: Seq<u8>)
    requires
        is_number(bytes),
    ensures
        var_u32(bytes + t) matches Some((_, rest)) && rest == t,
        var_u64(bytes + t) matches Some((_, rest)) && rest == t,
        passed(bytes + t, t) == bytes,
{
    lemma_var_local(bytes, t);
    assert(bytes.skip(bytes.len() as int) + t =~= t);
    assert(passed(bytes + t, t) =~= bytes);
}

/// What an unsigned integer was read from is a whole number, and is read alike whatever
/// follows.
pub proof fn lemma_var_front(s: Seq<u8>, t: Seq<u8>)
    ensures
        var_u32(s) matches Some((value, rest)) ==> {
            &&& is_number(passed(s, rest))
            &&& passed(s, rest) + rest == s
            &&& var_u32(passed(s, rest) + t) == Some((value, t))
            &&& passed(passed(s, rest) + t, t) == passed(s, rest)
        },
        var_u64(s) matches Some((value, rest)) ==> {
            &&& is_number(passed(s, rest))
            &&& passed(s, rest) + rest == s
        },
{
    if let Some(n) = var_size(s, MAX_VAR_BYTES as nat) {
        lemma_var_size_bounds(s, MAX_VAR_BYTES as nat);
        lemma_var_size_front(s, MAX_VAR_BYTES as nat);
        lemma_passed_whole(s, n);
        let front = s.take(n as int);
        assert(front + s.skip(n as int) =~= s);
        lemma_var_bits_local(front, s.skip(n as int), n);
        lemma_number_front(front, t);
        lemma_var_size_local(front, t, MAX_VAR_BYTES as nat);
        lemma_var_bits_local(front, t, n);
    }
}

/// A signed integer is read alike whatever follows.
pub proof fn lemma_var_i64_front(s: Seq<u8>, t: Seq<u8>)
    ensures
        var_i64(s) matches Some(rest) ==> {
            &&& passed(s, rest) + rest == s
            &&& var_i64(passed(s, rest) + t) == Some(t)
            &&& passed(passed(s, rest) + t, t) == passed(s, rest)
        },
{
    if let Some(rest) = var_i64(s) {
        let n = var_size(s, MAX_SIGNED_VAR_BYTES as nat)->0;
        lemma_var_size_bounds(s, MAX_SIGNED_VAR_BYTES as nat);
        lemma_var_size_front(s, MAX_SIGNED_VAR_BYTES as nat);
        lemma_passed_whole(s, n);
        let front = s.take(n as int);
        assert(!signed_negates_min(front)) by {
            if signed_negates_min(front) {
                assert forall|i: int| 1 <= i < MAX_SIGNED_VAR_BYTES - 1 implies #[trigger] s[i]
                    == 0x80 by {
                    assert(front[i] == 0x80);
                }
                assert(front[0] == s[0] && front[9] == s[9]);
                assert(signed_negates_min(s));
            }
        }
        lemma_var_i64_local(front, t);
        assert(front.skip(n as int) + t =~= t);
        assert(passed(front + t, t) =~= front);
    }
}

/// A buffer is read alike whatever follows.
pub proof fn lemma_buffer_front(s: Seq<u8>, t: Seq<u8>)
    ensures
        buffer(s) matches Some((content, rest)) ==> {
            &&& passed(s, rest) + rest == s
            &&& buffer(passed(s, rest) + t) == Some((content, t))
            &&& passed(passed(s, rest) + t, t) == passed(s, rest)
        },
{
    lemma_var_front(s, t);
    if let Some((len, mid)) = var_u32(s) {
        lemma_var_local(s, t);
        if let Some((content, rest)) = exact(mid, len as nat) {
            let head = passed(s, mid);
            lemma_var_front(s, content + t);
            assert(s =~= head + mid);
            assert(mid =~= content + rest);
            assert(passed(s, rest) =~= head + content);
            assert((head + content) + t =~= head + (content + t));
            assert((content + t).take(len as int) =~= content);
            assert((content + t).skip(len as int) =~= t);
            assert(passed(s, rest) + rest =~= s);
            assert(passed(passed(s, rest) + t, t) =~= passed(s, rest));
        }
    }
}

} // verus!
