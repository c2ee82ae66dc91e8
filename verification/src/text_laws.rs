//! What holds of the guard for base64 text as a whole.

use vstd::prelude::*;

use crate::grammar::is_safe_update;
use crate::text::{
    base64_text, encodes, is_base64_of, is_white_space, lemma_base64_injective, symbol, trimmed,
    Alphabet, Padding,
};
use crate::validate::is_safe_update_text;

verus! {

/// A base64 text has no white space in it.
proof fn lemma_base64_no_space(bytes: Seq<u8>, alphabet: Alphabet, padding: Padding)
    ensures
        forall|i: int|
            0 <= i < base64_text(bytes, alphabet, padding).len() ==> !is_white_space(
                #[trigger] base64_text(bytes, alphabet, padding)[i],
            ),
    decreases bytes.len(),
{
    assert forall|v: int| 0 <= v < 64 implies !is_white_space(#[trigger] symbol(v, alphabet)) by {}
    if bytes.len() >= 3 {
        lemma_base64_no_space(bytes.skip(3), alphabet, padding);
        let back = base64_text(bytes.skip(3), alphabet, padding);
        let t = base64_text(bytes, alphabet, padding);
        assert forall|i: int| 0 <= i < t.len() implies !is_white_space(#[trigger] t[i]) by {
            if i >= 4 {
                assert(t[i] == back[i - 4]);
            }
        }
    }
}

/// The base64 text of some bytes, in either alphabet and with padding or without, is safe
/// exactly if the bytes are.
pub proof fn law_base64_keeps_the_judgement(bytes: Seq<u8>, alphabet: Alphabet, padding: Padding)
    ensures
        is_safe_update_text(base64_text(bytes, alphabet, padding)) == is_safe_update(bytes),
{
    let text = base64_text(bytes, alphabet, padding);
    lemma_base64_no_space(bytes, alphabet, padding);
    assert(trimmed(text) == text);
    assert(encodes(text, bytes, alphabet, padding));
    assert(is_base64_of(text, bytes));
    assert forall|other: Seq<u8>| is_base64_of(text, other) implies other == bytes by {
        lemma_base64_injective(text, other, bytes);
    }
}

/// Nothing but base64 is safe: a safe text is, but for white space at its ends, the base64 text
/// of the bytes of a safe update, and of no other bytes.
pub proof fn law_only_base64_is_safe(text: Seq<char>) -> (r: (Seq<u8>, Alphabet, Padding))
    requires
        is_safe_update_text(text),
    ensures
        trimmed(text) == base64_text(r.0, r.1, r.2),
        is_safe_update(r.0),
        forall|other: Seq<u8>, u: Alphabet, p: Padding|
            trimmed(text) == #[trigger] base64_text(other, u, p) ==> other == r.0,
{
    let bytes = choose|bytes: Seq<u8>|
        is_base64_of(trimmed(text), bytes) && #[trigger] is_safe_update(bytes);
    let (u, p) = choose|u: Alphabet, p: Padding| encodes(trimmed(text), bytes, u, p);
    assert forall|other: Seq<u8>, v: Alphabet, q: Padding|
        trimmed(text) == #[trigger] base64_text(other, v, q) implies other == bytes by {
        assert(encodes(trimmed(text), other, v, q));
        lemma_base64_injective(trimmed(text), other, bytes);
    }
    (bytes, u, p)
}

/// White space in front is trimmed.
proof fn lemma_trimmed_front(before: Seq<char>, text: Seq<char>)
    requires
        forall|i: int| 0 <= i < before.len() ==> is_white_space(#[trigger] before[i]),
    ensures
        trimmed(before + text) == trimmed(text),
    decreases before.len(),
{
    if before.len() == 0 {
        assert(before + text =~= text);
    } else {
        assert(is_white_space((before + text).first())) by {
            assert(before[0] == (before + text)[0]);
        }
        assert((before + text).drop_first() =~= before.drop_first() + text);
        lemma_trimmed_front(before.drop_first(), text);
    }
}

/// White space behind is trimmed.
proof fn lemma_trimmed_back(text: Seq<char>, after: Seq<char>)
    requires
        forall|i: int| 0 <= i < after.len() ==> is_white_space(#[trigger] after[i]),
    ensures
        trimmed(text + after) == trimmed(text),
    decreases text.len() + after.len(),
{
    if after.len() == 0 {
        assert(text + after =~= text);
    } else if text.len() == 0 {
        assert(text + after =~= after + text);
        lemma_trimmed_front(after, text);
    } else if is_white_space(text.first()) {
        assert((text + after).first() == text.first());
        assert((text + after).drop_first() =~= text.drop_first() + after);
        lemma_trimmed_back(text.drop_first(), after);
    } else {
        assert((text + after).first() == text.first());
        assert((text + after).last() == after.last());
        assert(is_white_space(after[after.len() - 1]));
        assert((text + after).drop_last() =~= text + after.drop_last());
        lemma_trimmed_back(text, after.drop_last());
    }
}

/// White space around a text makes no difference.
pub proof fn law_white_space_is_passed_over(before: Seq<char>, text: Seq<char>, after: Seq<char>)
    requires
        forall|i: int| 0 <= i < before.len() ==> is_white_space(#[trigger] before[i]),
        forall|i: int| 0 <= i < after.len() ==> is_white_space(#[trigger] after[i]),
    ensures
        is_safe_update_text(before + text + after) == is_safe_update_text(text),
{
    lemma_trimmed_front(before, text + after);
    assert(before + (text + after) =~= before + text + after);
    lemma_trimmed_back(text, after);
}

} // verus!
