//! How the depth at which an `Any` value is read bears on the walk: only by the bound.

use vstd::prelude::*;

use crate::grammar::{
    any_at, any_body, entry, followed_by, repeated, string, Rule, Walk, MAX_ANY_DEPTH,
};
use crate::reject::Reject;
use crate::wire::var_u32;

verus! {

/// Of the walk `deep` over some bytes and the walk `shallow` over the same bytes from a
/// smaller depth: they are the same, but that the second may go on where the first is too
/// deep.
pub open spec fn reaches(shallow: Walk, deep: Walk) -> bool {
    if deep.end == Err::<(), Reject>(Reject::TooDeep) {
        deep.strings.is_prefix_of(shallow.strings)
    } else {
        shallow == deep
    }
}

/// The rule `shallow` goes as far as the rule `deep` everywhere.
pub open spec fn rule_reaches(shallow: Rule, deep: Rule) -> bool {
    forall|s: Seq<u8>| reaches(shallow(s), #[trigger] deep(s))
}

proof fn lemma_followed_by_reaches(shallow: Walk, deep: Walk, next: Rule, deep_next: Rule)
    requires
        reaches(shallow, deep),
        deep.end is Ok ==> reaches(next(deep.left), deep_next(deep.left)),
    ensures
        reaches(followed_by(shallow, next), followed_by(deep, deep_next)),
{
    if deep.end is Ok {
        let a = deep_next(deep.left).strings;
        let b = next(deep.left).strings;
        if a.is_prefix_of(b) {
            assert((deep.strings + a).is_prefix_of(deep.strings + b));
        }
    }
}

proof fn lemma_repeated_reaches(n: nat, shallow: Rule, deep: Rule, s: Seq<u8>)
    requires
        rule_reaches(shallow, deep),
    ensures
        reaches(repeated(n, shallow, s), repeated(n, deep, s)),
    decreases n,
{
    if n > 0 {
        assert(reaches(shallow(s), deep(s)));
        lemma_repeated_reaches((n - 1) as nat, shallow, deep, deep(s).left);
        lemma_followed_by_reaches(
            shallow(s),
            deep(s),
            |rest: Seq<u8>| repeated((n - 1) as nat, shallow, rest),
            |rest: Seq<u8>| repeated((n - 1) as nat, deep, rest),
        );
    }
}

proof fn lemma_entry_reaches(shallow: Rule, deep: Rule)
    requires
        rule_reaches(shallow, deep),
    ensures
        rule_reaches(entry(shallow), entry(deep)),
{
    assert forall|s: Seq<u8>| reaches(entry(shallow)(s), #[trigger] entry(deep)(s)) by {
        assert(reaches(shallow(string(s).left), deep(string(s).left)));
        lemma_followed_by_reaches(string(s), string(s), shallow, deep);
    }
}

proof fn lemma_any_body_reaches(tag: u8, shallow: Rule, deep: Rule, s: Seq<u8>)
    requires
        rule_reaches(shallow, deep),
    ensures
        reaches(any_body(tag, shallow, s), any_body(tag, deep, s)),
{
    lemma_entry_reaches(shallow, deep);
    if let Some((n, rest)) = var_u32(s) {
        lemma_repeated_reaches(n as nat, shallow, deep, rest);
        lemma_repeated_reaches(n as nat, entry(shallow), entry(deep), rest);
    }
}

/// From a smaller depth an `Any` value is walked as far, and alike.
pub proof fn lemma_any_reaches(depth: nat, deeper: nat)
    requires
        depth <= deeper,
    ensures
        rule_reaches(any_at(depth), any_at(deeper)),
    decreases MAX_ANY_DEPTH + 1 - deeper,
{
    assert forall|s: Seq<u8>| reaches(any_at(depth)(s), #[trigger] any_at(deeper)(s)) by {
        if deeper <= MAX_ANY_DEPTH && s.len() > 0 {
            lemma_any_reaches(depth + 1, deeper + 1);
            lemma_any_body_reaches(s[0], any_at(depth + 1), any_at(deeper + 1), s.skip(1));
        }
    }
}

} // verus!
