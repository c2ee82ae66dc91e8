//! The guard itself: a walk over untrusted update bytes that follows the grammar of
//! [`crate::grammar`] and checks every string field.

use core::str;
use vstd::prelude::*;
use vstd::string::StringSliceAdditionalSpecFns;
use vstd::utf8::valid_utf8;

use crate::grammar::{
    all_blocks, any, any_at, block, client_blocks, client_ranges, closing, content, doc_options,
    end_of_bytes, entry, id, id_range, id_set, is_safe_update, judged_alike,
    lemma_verdict_followed_by, lemma_verdict_item, lemma_verdict_repeated, parent, range, repeated,
    string, type_ref, unread, update, verdict, Field, Walk, ANY_ARRAY, ANY_BIGINT, ANY_BUFFER,
    ANY_FALSE, ANY_FLOAT32, ANY_FLOAT64, ANY_INTEGER, ANY_MAP, ANY_NULL, ANY_STRING, ANY_TRUE,
    ANY_UNDEFINED, BLOCK_GC_REF, BLOCK_ITEM_ANY, BLOCK_ITEM_BINARY, BLOCK_ITEM_DELETED,
    BLOCK_ITEM_DOC, BLOCK_ITEM_EMBED, BLOCK_ITEM_FORMAT, BLOCK_ITEM_JSON, BLOCK_ITEM_STRING,
    BLOCK_ITEM_TYPE, BLOCK_SKIP_REF, HAS_ORIGIN, HAS_PARENT_SUB, HAS_RIGHT_ORIGIN, MAX_ANY_DEPTH,
    TYPE_REFS_ARRAY, TYPE_REFS_DOC, TYPE_REFS_MAP, TYPE_REFS_TEXT, TYPE_REFS_UNDEFINED,
    TYPE_REFS_XML_ELEMENT, TYPE_REFS_XML_FRAGMENT, TYPE_REFS_XML_HOOK, TYPE_REFS_XML_TEXT,
};
use crate::reader::Reader;
use crate::reject::Reject;
use crate::text::{decode_base64, is_base64_of, lemma_base64_injective, trimmed};
use crate::wire::{var_stop, var_u64};

verus! {

/// The error of a failed UTF-8 check.
#[verifier::external_type_specification]
#[verifier::external_body]
pub struct ExUtf8Error(core::str::Utf8Error);

/// `std`'s `str::from_utf8`: it succeeds exactly on valid UTF-8, and the string it gives
/// then consists of the same bytes.
pub assume_specification[ core::str::from_utf8 ](v: &[u8]) -> (res: Result<
    &str,
    core::str::Utf8Error,
>)
    ensures
        res is Ok <==> valid_utf8(v@),
        res matches Ok(text) ==> text.spec_bytes() == v@,
;

/// The result `r` of reading, and what it left unread, are as `walk` is judged.
pub open spec fn agrees(r: Result<(), Reject>, left: Seq<u8>, walk: Walk) -> bool {
    r == verdict(walk) && left == unread(walk)
}

/// Reads a client id.
pub fn read_client(cur: &mut Reader<'_>) -> (r: Result<u64, Reject>)
    requires
        old(cur).wf(),
    ensures
        final(cur).wf(),
        match var_u64(old(cur)@) {
            Some((value, rest)) => r == Ok::<u64, Reject>(value) && final(cur)@ == rest,
            None => r == Err::<u64, Reject>(Reject::Cursor) && final(cur)@ == var_stop(old(cur)@),
        },
{
    cur.read_var_u64()
}

/// Reads an id: a client id and a clock.
pub fn read_id(cur: &mut Reader<'_>) -> (r: Result<(), Reject>)
    requires
        old(cur).wf(),
    ensures
        final(cur).wf(),
        agrees(r, final(cur)@, id(old(cur)@)),
{
    let _client: u64 = cur.read_var_u64()?;
    let _clock: u32 = cur.read_var_u32()?;
    Ok(())
}

/// Reads a string field and checks that it is valid UTF-8.
pub fn read_string(cur: &mut Reader<'_>) -> (r: Result<(), Reject>)
    requires
        old(cur).wf(),
    ensures
        final(cur).wf(),
        agrees(r, final(cur)@, string(old(cur)@)),
{
    let bytes: &[u8] = cur.read_buf()?;
    assert(string(old(cur)@).strings =~= seq![Field { text: bytes@, rest: cur@ }]);
    assert(string(old(cur)@).strings[0].text == bytes@);
    match str::from_utf8(bytes) {
        Ok(_) => Ok(()),
        Err(_) => Err(Reject::InvalidUtf8),
    }
}

/// Walks a reference to a shared type.
pub fn walk_type_ref(cur: &mut Reader<'_>) -> (r: Result<(), Reject>)
    requires
        old(cur).wf(),
    ensures
        final(cur).wf(),
        agrees(r, final(cur)@, type_ref(old(cur)@)),
{
    let tag: u8 = cur.read_u8()?;
    match tag {
        TYPE_REFS_ARRAY
        | TYPE_REFS_MAP
        | TYPE_REFS_TEXT
        | TYPE_REFS_XML_FRAGMENT
        | TYPE_REFS_XML_HOOK
        | TYPE_REFS_XML_TEXT
        | TYPE_REFS_DOC
        | TYPE_REFS_UNDEFINED => Ok(()),
        TYPE_REFS_XML_ELEMENT => read_string(cur),
        _ => Err(Reject::BadTag),
    }
}

/// Walks an `Any` value at nesting depth `depth`.
pub fn walk_any(cur: &mut Reader<'_>, depth: u32) -> (r: Result<(), Reject>)
    requires
        old(cur).wf(),
    ensures
        final(cur).wf(),
        agrees(r, final(cur)@, any(depth as nat, old(cur)@)),
        depth > MAX_ANY_DEPTH ==> final(cur)@ == old(cur)@,
    decreases MAX_ANY_DEPTH + 1 - depth,
{
    if depth > MAX_ANY_DEPTH {
        return Err(Reject::TooDeep);
    }
    let ghost inner = any_at((depth + 1) as nat);
    let tag: u8 = cur.read_u8()?;
    match tag {
        ANY_UNDEFINED | ANY_NULL => Ok(()),
        ANY_INTEGER => cur.read_var_i64(),
        ANY_FLOAT32 => cur.read_f32(),
        ANY_FLOAT64 => cur.read_f64(),
        ANY_BIGINT => cur.read_i64(),
        ANY_FALSE | ANY_TRUE => Ok(()),
        ANY_STRING => read_string(cur),
        ANY_MAP => {
            let len: u32 = cur.read_var_u32()?;
            let mut i: u32 = 0;
            while i < len
                invariant
                    i <= len,
                    depth <= MAX_ANY_DEPTH,
                    cur.wf(),
                    inner == any_at((depth + 1) as nat),
                    judged_alike(
                        any(depth as nat, old(cur)@),
                        repeated((len - i) as nat, entry(inner), cur@),
                    ),
                decreases len - i,
            {
                proof {
                    lemma_verdict_repeated((len - i) as nat, entry(inner), cur@);
                    lemma_verdict_followed_by(string(cur@), inner);
                }
                read_string(cur)?;
                walk_any(cur, depth + 1)?;
                i += 1;
            }
            Ok(())
        },
        ANY_ARRAY => {
            let len: u32 = cur.read_var_u32()?;
            let mut i: u32 = 0;
            while i < len
                invariant
                    i <= len,
                    depth <= MAX_ANY_DEPTH,
                    cur.wf(),
                    inner == any_at((depth + 1) as nat),
                    judged_alike(
                        any(depth as nat, old(cur)@),
                        repeated((len - i) as nat, inner, cur@),
                    ),
                decreases len - i,
            {
                proof {
                    lemma_verdict_repeated((len - i) as nat, inner, cur@);
                }
                walk_any(cur, depth + 1)?;
                i += 1;
            }
            Ok(())
        },
        ANY_BUFFER => {
            let _bytes: &[u8] = cur.read_buf()?;
            Ok(())
        },
        _ => Err(Reject::BadTag),
    }
}

/// Walks the options of a subdocument.
pub fn walk_doc_options(cur: &mut Reader<'_>) -> (r: Result<(), Reject>)
    requires
        old(cur).wf(),
    ensures
        final(cur).wf(),
        agrees(r, final(cur)@, doc_options(old(cur)@)),
{
    proof {
        lemma_verdict_followed_by(string(cur@), any_at(0));
    }
    read_string(cur)?;
    walk_any(cur, 0)
}

/// Walks the content of an item; the low four bits of `info` say of which kind it is.
pub fn walk_content(cur: &mut Reader<'_>, info: u8) -> (r: Result<(), Reject>)
    requires
        old(cur).wf(),
    ensures
        final(cur).wf(),
        agrees(r, final(cur)@, content(info, old(cur)@)),
        !(BLOCK_ITEM_DELETED <= info & 0b1111 <= BLOCK_ITEM_DOC) ==> final(cur)@ == old(cur)@,
{
    match info & 0b1111 {
        BLOCK_ITEM_DELETED => {
            let _len: u32 = cur.read_var_u32()?;
            Ok(())
        },
        BLOCK_ITEM_JSON => {
            let len: u32 = cur.read_var_u32()?;
            let total: u64 = len as u64 + 1;
            let mut i: u64 = 0;
            while i < total
                invariant
                    i <= total,
                    cur.wf(),
                    judged_alike(
                        content(info, old(cur)@),
                        repeated((total - i) as nat, |rest: Seq<u8>| string(rest), cur@),
                    ),
                decreases total - i,
            {
                proof {
                    lemma_verdict_repeated((total - i) as nat, |rest: Seq<u8>| string(rest), cur@);
                }
                read_string(cur)?;
                i += 1;
            }
            Ok(())
        },
        BLOCK_ITEM_BINARY => {
            let _bytes: &[u8] = cur.read_buf()?;
            Ok(())
        },
        BLOCK_ITEM_STRING => read_string(cur),
        BLOCK_ITEM_EMBED => read_string(cur),
        BLOCK_ITEM_FORMAT => {
            proof {
                lemma_verdict_followed_by(string(cur@), |rest: Seq<u8>| string(rest));
            }
            read_string(cur)?;
            read_string(cur)
        },
        BLOCK_ITEM_TYPE => walk_type_ref(cur),
        BLOCK_ITEM_ANY => {
            let len: u32 = cur.read_var_u32()?;
            let mut i: u32 = 0;
            while i < len
                invariant
                    i <= len,
                    cur.wf(),
                    judged_alike(
                        content(info, old(cur)@),
                        repeated((len - i) as nat, any_at(0), cur@),
                    ),
                decreases len - i,
            {
                proof {
                    lemma_verdict_repeated((len - i) as nat, any_at(0), cur@);
                }
                walk_any(cur, 0)?;
                i += 1;
            }
            Ok(())
        },
        BLOCK_ITEM_DOC => walk_doc_options(cur),
        _ => Err(Reject::BadTag),
    }
}

/// Walks a block.
pub fn walk_block(cur: &mut Reader<'_>) -> (r: Result<(), Reject>)
    requires
        old(cur).wf(),
    ensures
        final(cur).wf(),
        agrees(r, final(cur)@, block(old(cur)@)),
{
    let info: u8 = cur.read_u8()?;
    match info {
        BLOCK_SKIP_REF => {
            let _len: u32 = cur.read_var_u32()?;
            Ok(())
        },
        BLOCK_GC_REF => {
            let _len: u32 = cur.read_var_u32()?;
            Ok(())
        },
        info => {
            let cant_copy_parent_info: bool = info & (HAS_ORIGIN | HAS_RIGHT_ORIGIN) == 0;
            proof {
                lemma_verdict_item(info, cur@);
            }
            if info & HAS_ORIGIN != 0 {
                read_id(cur)?;
            }
            if info & HAS_RIGHT_ORIGIN != 0 {
                read_id(cur)?;
            }
            if cant_copy_parent_info {
                proof {
                    lemma_verdict_followed_by(parent(cur@), |rest: Seq<u8>| string(rest));
                }
                let parent_info: u32 = cur.read_var_u32()?;
                if parent_info == 1 {
                    read_string(cur)?;
                } else {
                    read_id(cur)?;
                }
                if info & HAS_PARENT_SUB != 0 {
                    read_string(cur)?;
                }
            }
            walk_content(cur, info)
        },
    }
}

/// Walks the deleted ranges of one client.
pub fn walk_id_range(cur: &mut Reader<'_>) -> (r: Result<(), Reject>)
    requires
        old(cur).wf(),
    ensures
        final(cur).wf(),
        agrees(r, final(cur)@, id_range(old(cur)@)),
{
    let len: u32 = cur.read_var_u32()?;
    let mut i: u32 = 0;
    while i < len
        invariant
            i <= len,
            cur.wf(),
            judged_alike(
                id_range(old(cur)@),
                repeated((len - i) as nat, |rest: Seq<u8>| range(rest), cur@),
            ),
        decreases len - i,
    {
        proof {
            lemma_verdict_repeated((len - i) as nat, |rest: Seq<u8>| range(rest), cur@);
        }
        let _clock: u32 = cur.read_var_u32()?;
        let _range_len: u32 = cur.read_var_u32()?;
        i += 1;
    }
    Ok(())
}

/// Walks the delete set.
pub fn walk_id_set(cur: &mut Reader<'_>) -> (r: Result<(), Reject>)
    requires
        old(cur).wf(),
    ensures
        final(cur).wf(),
        agrees(r, final(cur)@, id_set(old(cur)@)),
{
    let client_len: u32 = cur.read_var_u32()?;
    let mut i: u32 = 0;
    while i < client_len
        invariant
            i <= client_len,
            cur.wf(),
            judged_alike(
                id_set(old(cur)@),
                repeated((client_len - i) as nat, |rest: Seq<u8>| client_ranges(rest), cur@),
            ),
        decreases client_len - i,
    {
        proof {
            lemma_verdict_repeated(
                (client_len - i) as nat,
                |rest: Seq<u8>| client_ranges(rest),
                cur@,
            );
        }
        let _client: u64 = cur.read_var_u64()?;
        walk_id_range(cur)?;
        i += 1;
    }
    Ok(())
}

/// Walks the blocks of one client.
pub fn walk_client_blocks(cur: &mut Reader<'_>) -> (r: Result<(), Reject>)
    requires
        old(cur).wf(),
    ensures
        final(cur).wf(),
        agrees(r, final(cur)@, client_blocks(old(cur)@)),
{
    let blocks_len: u32 = cur.read_var_u32()?;
    let _client: u64 = read_client(cur)?;
    let _clock: u32 = cur.read_var_u32()?;
    let mut i: u32 = 0;
    while i < blocks_len
        invariant
            i <= blocks_len,
            cur.wf(),
            judged_alike(
                client_blocks(old(cur)@),
                repeated((blocks_len - i) as nat, |rest: Seq<u8>| block(rest), cur@),
            ),
        decreases blocks_len - i,
    {
        proof {
            lemma_verdict_repeated((blocks_len - i) as nat, |rest: Seq<u8>| block(rest), cur@);
        }
        walk_block(cur)?;
        i += 1;
    }
    Ok(())
}

/// Walks a whole update. It succeeds if the bytes are an update from the first to the last,
/// and every string in them is valid UTF-8. Otherwise it fails with the first reason that it
/// meets.
pub fn walk_update(buf: &[u8]) -> (r: Result<(), Reject>)
    ensures
        r == verdict(update(buf@)),
{
    let mut cur = Reader::new(buf);
    proof {
        lemma_verdict_followed_by(all_blocks(buf@), |rest: Seq<u8>| closing(rest));
        lemma_verdict_followed_by(
            id_set(unread(all_blocks(buf@))),
            |rest: Seq<u8>| end_of_bytes(rest),
        );
    }
    let clients_len: u32 = cur.read_var_u32()?;
    let mut i: u32 = 0;
    while i < clients_len
        invariant
            i <= clients_len,
            cur.wf(),
            judged_alike(
                all_blocks(buf@),
                repeated((clients_len - i) as nat, |rest: Seq<u8>| client_blocks(rest), cur@),
            ),
            verdict(all_blocks(buf@)) is Err ==> verdict(update(buf@)) == verdict(all_blocks(buf@)),
        decreases clients_len - i,
    {
        proof {
            lemma_verdict_repeated(
                (clients_len - i) as nat,
                |rest: Seq<u8>| client_blocks(rest),
                cur@,
            );
        }
        walk_client_blocks(&mut cur)?;
        i += 1;
    }
    walk_id_set(&mut cur)?;
    if cur.has_content() {
        return Err(Reject::Trailing);
    }
    Ok(())
}

/// Whether raw update bytes are safe to hand to the `yrs` decoder: they are an update from
/// the first byte to the last, and every string in them is valid UTF-8. Drop the update if
/// not. It does not panic on any bytes. For that it also refuses the signed integers (in
/// `Any` values) on which reading in 64 bits overflows: those with an eleventh byte, and the
/// negative of the magnitude 2^63.
pub fn is_update_bytes_safe(update: &[u8]) -> (r: bool)
    ensures
        r == is_safe_update(update@),
{
    walk_update(update).is_ok()
}

/// The text is, but for white space at its ends, a base64 form of a safe update.
pub open spec fn is_safe_update_text(text: Seq<char>) -> bool {
    exists|bytes: Seq<u8>|
        is_base64_of(trimmed(text), bytes) && #[trigger] is_safe_update(bytes)
}

/// Whether base64 text stands for an update that is safe to hand to the `yrs` decoder. Both
/// alphabets are read, with padding or without, and white space around the text is passed
/// over. Text that is not base64 is not safe.
pub fn is_update_b64_safe(update_b64: &str) -> (r: bool)
    ensures
        r == is_safe_update_text(update_b64@),
{
    let text: &str = update_b64.trim();
    match decode_base64(text) {
        Some(bytes) => {
            proof {
                assert forall|other: Seq<u8>| is_base64_of(text@, other) implies other
                    == bytes@ by {
                    lemma_base64_injective(text@, other, bytes@);
                }
            }
            is_update_bytes_safe(&bytes)
        },
        None => false,
    }
}

} // verus!
