//! The guard on raw update bytes, hand-built and made by `yrs`.

use base64::Engine as _;
use doc_core::grammar::{
    BLOCK_ITEM_ANY, BLOCK_ITEM_BINARY, BLOCK_ITEM_DELETED, BLOCK_ITEM_DOC, BLOCK_ITEM_EMBED,
    BLOCK_ITEM_FORMAT, BLOCK_ITEM_JSON, BLOCK_ITEM_STRING, BLOCK_ITEM_TYPE, MAX_ANY_DEPTH,
    TYPE_REFS_XML_ELEMENT,
};
use doc_core::validate::{is_update_b64_safe, is_update_bytes_safe};
use yrs::updates::decoder::Decode;
use yrs::Map as _;
use yrs::{Doc, GetString, ReadTxn, Text, Transact};

/// Build a real, well-formed v1 update by editing a yrs document and encoding the
/// state as an update. This exercises the String / block / delete-set grammar.
fn make_valid_update(text: &str) -> Vec<u8> {
    let doc = Doc::new();
    let txt = doc.get_or_insert_text("content");
    {
        let mut txn = doc.transact_mut();
        txt.insert(&mut txn, 0, text);
    }
    let txn = doc.transact();
    txn.encode_state_as_update_v1(&yrs::StateVector::default())
}

#[test]
fn valid_update_is_accepted() {
    let update = make_valid_update("hello world");
    assert!(is_update_bytes_safe(&update), "a real yrs update must pass");
}

#[test]
fn valid_update_with_multibyte_utf8_is_accepted() {
    // Multi-byte string content (é, emoji, CJK) must still validate — the checked
    // from_utf8 accepts well-formed multi-byte sequences.
    let update = make_valid_update("café 🦀 日本語");
    assert!(is_update_bytes_safe(&update));
}

#[test]
fn accepted_update_actually_decodes() {
    // Cross-check: anything we accept must really be decodable by yrs (no false
    // accept that decode_v1 would then choke on).
    let update = make_valid_update("round trip");
    assert!(is_update_bytes_safe(&update));
    let decoded = yrs::Update::decode_v1(&update);
    assert!(decoded.is_ok());
    // And applying it reproduces the text.
    let doc = Doc::new();
    let _txt = doc.get_or_insert_text("content");
    {
        let mut txn = doc.transact_mut();
        txn.apply_update(decoded.expect("decoded above"))
            .expect("apply");
    }
    let txt = doc.get_or_insert_text("content");
    let txn = doc.transact();
    assert_eq!(txt.get_string(&txn), "round trip");
}

#[test]
fn empty_input_is_rejected_without_panic() {
    // Zero bytes: read_var for clients_len fails ⇒ reject (never panic).
    assert!(!is_update_bytes_safe(&[]));
}

#[test]
fn garbage_is_rejected_without_panic() {
    // Random/garbage bytes must reject cleanly.
    assert!(!is_update_bytes_safe(&[0xFF, 0xFF, 0xFF, 0xFF, 0xFF]));
    assert!(!is_update_bytes_safe(&[0x80, 0x80, 0x80, 0x80, 0x80, 0x80]));
    assert!(!is_update_bytes_safe(&[0x42]));
}

#[test]
fn truncated_update_is_rejected() {
    // Take a valid update and lop off the tail: the walk runs out of buffer and
    // the bounds-checked cursor returns an error ⇒ reject (no over-read).
    let update = make_valid_update("some content here");
    assert!(update.len() > 4);
    for cut in 1..update.len() {
        let truncated = &update[..cut];
        assert!(
            !is_update_bytes_safe(truncated),
            "truncation at {cut} must be rejected"
        );
    }
}

#[test]
fn trailing_garbage_is_rejected() {
    // A valid update with extra bytes appended: the trailing-bytes guard rejects.
    let mut update = make_valid_update("trailing test");
    update.extend_from_slice(&[0x00, 0x01, 0x02]);
    assert!(!is_update_bytes_safe(&update));
}

#[test]
fn over_long_string_length_is_rejected() {
    // A hand-built update whose String content claims a huge length: the cursor's
    // read_exact sees length > remaining buffer ⇒ EndOfBuffer ⇒ reject. No alloc,
    // no over-read, no panic.
    // clients_len=1, blocks_len=1, client=0, clock=0,
    // info=BLOCK_ITEM_STRING (no origin/parent bits, cant_copy_parent_info=true)
    //   ⇒ parent_info varint=0 ⇒ TypePtr::ID ⇒ read_id (client+clock).
    // Then content STRING: a string with an absurd length prefix.
    let mut update: Vec<u8> = Vec::new();
    update.push(1); // clients_len
    update.push(1); // blocks_len
    update.push(0); // client
    update.push(0); // clock
    update.push(BLOCK_ITEM_STRING); // info (low nibble 4, no high bits)
    update.push(0); // parent_info varint = 0 ⇒ TypePtr::ID
    update.push(0); // parent id client
    update.push(0); // parent id clock
    // String content length: 0xFFFFFFFF as a u32 varint.
    update.extend_from_slice(&[0xFF, 0xFF, 0xFF, 0xFF, 0x0F]);
    update.push(0x41); // a single byte of "content" — far short of the claim.
    assert!(!is_update_bytes_safe(&update));
}

/// The core case: an update that is structurally well-formed per the
/// v1 grammar but whose String content field carries INVALID UTF-8. This is the
/// exact input that would make `decode_v1`'s `from_utf8_unchecked` construct a
/// `&str` over invalid bytes (UB / process abort). The validator MUST reject it.
///
/// The invalid sequence is a TWO-byte sequence
/// `[0xC3, 0x28]` (a lead byte 0xC3 followed by 0x28, which is not a valid UTF-8
/// continuation byte) placed inside an explicitly-built string — NOT a single
/// stray byte that could collide with random client-id bytes.
#[test]
fn string_field_with_invalid_utf8_is_rejected() {
    // Hand-build: clients_len=1, blocks_len=1, client=0, clock=0,
    // info=BLOCK_ITEM_STRING, parent_info=0 (TypePtr::ID), parent id (0,0),
    // then String content = len-prefixed bytes that are invalid UTF-8.
    let invalid_utf8: &[u8] = &[0xC3, 0x28]; // classic invalid 2-byte sequence
    let mut update: Vec<u8> = Vec::new();
    update.push(1); // clients_len
    update.push(1); // blocks_len
    update.push(0); // client
    update.push(0); // start clock
    update.push(BLOCK_ITEM_STRING); // info
    update.push(0); // parent_info = 0 ⇒ TypePtr::ID
    update.push(0); // parent id client
    update.push(0); // parent id clock
    update.push(invalid_utf8.len() as u8); // string length varint (= 2)
    update.extend_from_slice(invalid_utf8); // the invalid bytes
    // A (possibly empty) delete set so the structure can complete; even if it
    // can't, the invalid-UTF-8 reject fires first.
    update.push(0); // delete set client_len = 0

    // The validator rejects on InvalidUtf8 — the whole point.
    assert!(
        !is_update_bytes_safe(&update),
        "an embedded invalid-UTF-8 string MUST be rejected (the core UB guard)"
    );
}

/// A second invalid-UTF-8 placement, this time inside the JSON content array,
/// using `[0xE9, 0x80]` (incomplete 3-byte sequence). Confirms the check fires on
/// every read_string site, not just the simple String content.
#[test]
fn json_field_with_invalid_utf8_is_rejected() {
    let invalid_utf8: &[u8] = &[0xE9, 0x80]; // truncated 3-byte lead
    let mut update: Vec<u8> = Vec::new();
    update.push(1); // clients_len
    update.push(1); // blocks_len
    update.push(0); // client
    update.push(0); // clock
    update.push(BLOCK_ITEM_JSON); // info (low nibble 2)
    update.push(0); // parent_info = 0 ⇒ TypePtr::ID
    update.push(0); // parent id client
    update.push(0); // parent id clock
    update.push(0); // JSON read_len = 0 ⇒ loop runs 0..=0 i.e. one string
    update.push(invalid_utf8.len() as u8); // string length = 2
    update.extend_from_slice(invalid_utf8);
    update.push(0); // delete set client_len = 0
    assert!(!is_update_bytes_safe(&update));
}

/// Sanity: the SAME hand-built frame but with VALID UTF-8 in the string is
/// accepted — proving the rejection above is due to the UTF-8 content and not the
/// hand-built framing itself.
#[test]
fn hand_built_frame_with_valid_utf8_string_is_accepted() {
    let valid_utf8: &[u8] = b"ok"; // valid UTF-8
    let mut update: Vec<u8> = Vec::new();
    update.push(1); // clients_len
    update.push(1); // blocks_len
    update.push(0); // client
    update.push(0); // clock
    update.push(BLOCK_ITEM_STRING); // info
    update.push(0); // parent_info = 0 ⇒ TypePtr::ID
    update.push(0); // parent id client
    update.push(0); // parent id clock
    update.push(valid_utf8.len() as u8); // string length = 2
    update.extend_from_slice(valid_utf8);
    update.push(0); // delete set client_len = 0
    assert!(
        is_update_bytes_safe(&update),
        "the same frame with valid UTF-8 must be accepted (isolates the UTF-8 check)"
    );
}

#[test]
fn deeply_nested_any_is_rejected_without_stack_overflow() {
    // Build a DOC-content block whose options Any is an array nested far beyond
    // MAX_ANY_DEPTH. The depth guard rejects before recursion blows the stack.
    let mut update: Vec<u8> = Vec::new();
    update.push(1); // clients_len
    update.push(1); // blocks_len
    update.push(0); // client
    update.push(0); // clock
    update.push(BLOCK_ITEM_DOC); // info (low nibble 9)
    update.push(0); // parent_info = 0 ⇒ TypePtr::ID
    update.push(0); // parent id client
    update.push(0); // parent id clock
    // Doc options: guid string (empty), then a deeply nested Any array.
    update.push(0); // guid length = 0 (empty string, valid UTF-8)
    for _ in 0..(MAX_ANY_DEPTH + 50) {
        update.push(117); // Any::Array tag
        update.push(1); // array len = 1 (one nested element)
    }
    update.push(126); // innermost Any::Null
    assert!(!is_update_bytes_safe(&update));
}

#[test]
fn empty_document_update_agrees_with_decode() {
    // An update from an untouched doc is still a (near-empty) update. Whatever its
    // bytes are, validating must not panic and must agree with decode_v1.
    let doc = Doc::new();
    let _txt = doc.get_or_insert_text("content");
    let txn = doc.transact();
    let update = txn.encode_state_as_update_v1(&yrs::StateVector::default());
    let safe = is_update_bytes_safe(&update);
    let decodes = yrs::Update::decode_v1(&update).is_ok();
    assert_eq!(
        safe, decodes,
        "validator must agree with decode_v1 on empty doc"
    );
}

/// The grammar is that of the v1 wire format under default yrs features. A real document
/// encodes to a v1 update that is accepted and that `decode_v1` consumes; if the wire format
/// or the default features of yrs ever change, this fails.
#[test]
fn decode_path_assumptions_hold() {
    // A document touching String, Map and nested content exercises the
    // string/block grammar this walk mirrors.
    let doc = Doc::new();
    let txt = doc.get_or_insert_text("content");
    let map = doc.get_or_insert_map("meta");
    {
        let mut txn = doc.transact_mut();
        txt.insert(&mut txn, 0, "locked v1 assumption");
        map.insert(&mut txn, "k", "v");
    }
    let txn = doc.transact();
    let update = txn.encode_state_as_update_v1(&yrs::StateVector::default());

    // 1. The validator accepts the v1 update produced by default-feature yrs.
    assert!(
        is_update_bytes_safe(&update),
        "default-feature yrs v1 update must still validate; if this fails the \
         wire format/features changed — revisit the grammar"
    );

    // 2. And `decode_v1` actually consumes exactly what we accept (no drift
    //    between the validator's v1 walk and yrs's v1 decoder).
    let decoded = yrs::Update::decode_v1(&update);
    assert!(
        decoded.is_ok(),
        "the v1 update we accepted must decode via decode_v1 (v1 path locked)"
    );

    // 3. The same bytes must NOT decode as v2 — proof we are genuinely on the
    //    v1 path the grammar assumes.
    assert!(
        yrs::Update::decode_v2(&update).is_err(),
        "a v1-encoded update must not also decode as v2 — confirms v1 wire format"
    );
}

#[test]
fn base64_entry_point_round_trips_and_rejects_garbage() {
    let update = make_valid_update("b64 path");
    let b64 = base64::engine::general_purpose::STANDARD.encode(&update);
    assert!(
        is_update_b64_safe(&b64),
        "valid update, base64-encoded, accepted"
    );
    assert!(
        !is_update_b64_safe("not valid base64!!!"),
        "bad base64 rejected"
    );
    assert!(!is_update_b64_safe(""), "empty string rejected");
}

// --- additional adversarial cases -----------------------------------------

/// Helper: build the common prefix for a single-block frame with no origin
/// bits (cant_copy_parent_info=true) and a TypePtr::ID parent (parent_info=0).
/// Returns a Vec<u8> covering: clients_len=1, blocks_len=1, client=0,
/// clock=0, info byte, parent_info=0, parent id client=0, parent id clock=0.
fn single_block_prefix(info: u8) -> Vec<u8> {
    let mut v = Vec::new();
    v.push(1); // clients_len
    v.push(1); // blocks_len
    v.push(0); // client (u64 varint)
    v.push(0); // start clock (u32 varint)
    v.push(info); // info byte
    v.push(0); // parent_info = 0 → TypePtr::ID
    v.push(0); // parent id client
    v.push(0); // parent id clock
    v
}

/// Append a length-prefixed byte string to a buffer.
fn push_string(v: &mut Vec<u8>, bytes: &[u8]) {
    // Length as a varint (u32); for test sizes (<128) a single byte suffices.
    assert!(bytes.len() < 128, "test helper only handles short strings");
    v.push(bytes.len() as u8);
    v.extend_from_slice(bytes);
}

#[test]
fn format_block_invalid_utf8_in_key() {
    // FORMAT block (info & 0xf == 6 = BLOCK_ITEM_FORMAT): two strings — key
    // then value. The key carries invalid UTF-8; must reject.
    let invalid_key: &[u8] = &[0xFE, 0x80]; // invalid UTF-8
    let valid_val: &[u8] = b"true";
    let mut update = single_block_prefix(BLOCK_ITEM_FORMAT);
    push_string(&mut update, invalid_key);
    push_string(&mut update, valid_val);
    update.push(0); // delete set client_len=0
    assert!(
        !is_update_bytes_safe(&update),
        "FORMAT block with invalid UTF-8 key must be rejected"
    );
}

#[test]
fn format_block_invalid_utf8_in_value() {
    // FORMAT block: valid UTF-8 key, invalid UTF-8 value. Both read_string
    // sites must be checked; this confirms the second one fires.
    let valid_key: &[u8] = b"bold";
    let invalid_val: &[u8] = &[0xFE, 0x80];
    let mut update = single_block_prefix(BLOCK_ITEM_FORMAT);
    push_string(&mut update, valid_key);
    push_string(&mut update, invalid_val);
    update.push(0); // delete set client_len=0
    assert!(
        !is_update_bytes_safe(&update),
        "FORMAT block with invalid UTF-8 value must be rejected"
    );
}

#[test]
fn embed_block_invalid_utf8() {
    // EMBED block (info & 0xf == 5 = BLOCK_ITEM_EMBED): a single string field
    // (the JSON embed). Invalid UTF-8 must be rejected.
    let invalid: &[u8] = &[0xC0, 0x80]; // overlong NUL — invalid UTF-8
    let mut update = single_block_prefix(BLOCK_ITEM_EMBED);
    push_string(&mut update, invalid);
    update.push(0);
    assert!(
        !is_update_bytes_safe(&update),
        "EMBED block with invalid UTF-8 must be rejected"
    );
}

#[test]
fn type_ref_xml_element_invalid_utf8() {
    // TYPE block (BLOCK_ITEM_TYPE = 7) with type_ref = TYPE_REFS_XML_ELEMENT
    // (3): that branch calls read_string for the element tag name.
    // Surrogate-half bytes are invalid UTF-8.
    let invalid_tag: &[u8] = &[0xED, 0xA0, 0x80]; // lone surrogate half
    let mut update = single_block_prefix(BLOCK_ITEM_TYPE);
    update.push(TYPE_REFS_XML_ELEMENT); // type_ref byte
    push_string(&mut update, invalid_tag);
    update.push(0);
    assert!(
        !is_update_bytes_safe(&update),
        "TYPE block XmlElement with invalid UTF-8 tag must be rejected"
    );
}

#[test]
fn type_ref_unknown_tag_rejected() {
    // TYPE block with a type_ref not in {0,1,2,3,4,5,6,9,15} — maps to
    // BadTag and must be rejected.
    let mut update = single_block_prefix(BLOCK_ITEM_TYPE);
    update.push(8); // 8 is not a valid type_ref (TYPE_REFS_WEAK forbidden)
    update.push(0);
    assert!(
        !is_update_bytes_safe(&update),
        "TYPE block with unknown type_ref must be rejected"
    );
}

#[test]
fn doc_block_invalid_utf8_guid() {
    // DOC block (BLOCK_ITEM_DOC = 9): first field is the guid string, then an
    // Any value. Invalid UTF-8 in the guid must be rejected.
    let invalid_guid: &[u8] = &[0xC3, 0x28];
    let mut update = single_block_prefix(BLOCK_ITEM_DOC);
    push_string(&mut update, invalid_guid);
    // Any value would follow but the reject fires before we get there.
    update.push(0); // delete set (update is already malformed before this)
    assert!(
        !is_update_bytes_safe(&update),
        "DOC block with invalid UTF-8 guid must be rejected"
    );
}

#[test]
fn named_parent_invalid_utf8() {
    // Block with cant_copy_parent_info=true (no HAS_ORIGIN or HAS_RIGHT_ORIGIN
    // bits) and parent_info=1 (→ TypePtr::Named → a string). The named-parent
    // string carries invalid UTF-8; must reject.
    //
    // info = BLOCK_ITEM_DELETED (1, no high bits) so content is just one varint.
    let invalid_name: &[u8] = &[0xC3, 0x28];
    let mut update = Vec::new();
    update.push(1); // clients_len
    update.push(1); // blocks_len
    update.push(0); // client
    update.push(0); // clock
    update.push(BLOCK_ITEM_DELETED); // info (1, no origin bits)
    update.push(1); // parent_info = 1 → TypePtr::Named → read_string
    push_string(&mut update, invalid_name);
    // If we got past the named-parent string, content would follow; but reject
    // fires first. Push a delete set anyway so the frame looks structurally
    // complete if the string were valid.
    update.push(1); // content len (DELETED content)
    update.push(0); // delete set client_len=0
    assert!(
        !is_update_bytes_safe(&update),
        "named parent string with invalid UTF-8 must be rejected"
    );
}

#[test]
fn parent_sub_invalid_utf8() {
    // Block with HAS_PARENT_SUB set and no origin bits (cant_copy_parent_info=
    // true). After the TypePtr::ID parent, the parent_sub key string is read.
    // Invalid UTF-8 there must be rejected.
    //
    // info = BLOCK_ITEM_DELETED | HAS_PARENT_SUB = 0x01 | 0x20 = 0x21.
    let invalid_sub: &[u8] = &[0xC3, 0x28];
    let mut update = Vec::new();
    update.push(1); // clients_len
    update.push(1); // blocks_len
    update.push(0); // client
    update.push(0); // clock
    update.push(0x21); // info: DELETED | HAS_PARENT_SUB, no origin bits
    update.push(0); // parent_info = 0 → TypePtr::ID
    update.push(0); // parent id client
    update.push(0); // parent id clock
    push_string(&mut update, invalid_sub); // parent_sub (HAS_PARENT_SUB)
    update.push(1); // DELETED content len
    update.push(0); // delete set client_len=0
    assert!(
        !is_update_bytes_safe(&update),
        "parent_sub with invalid UTF-8 must be rejected"
    );
}

#[test]
fn any_map_key_invalid_utf8() {
    // ANY block (BLOCK_ITEM_ANY = 8): one Map Any (tag=118) with one entry
    // whose key carries invalid UTF-8. Must reject.
    let invalid_key: &[u8] = &[0xC3, 0x28];
    let mut update = single_block_prefix(BLOCK_ITEM_ANY);
    update.push(1); // ANY len = 1 element
    update.push(118); // Any tag: Map
    update.push(1); // map len = 1 entry
    push_string(&mut update, invalid_key); // map key
    // map value would follow if key were valid; reject fires first.
    update.push(0);
    assert!(
        !is_update_bytes_safe(&update),
        "Any map key with invalid UTF-8 must be rejected"
    );
}

#[test]
fn any_string_invalid_utf8() {
    // ANY block with a string Any (tag=119): the string carries invalid UTF-8.
    let invalid: &[u8] = &[0xC3, 0x28];
    let mut update = single_block_prefix(BLOCK_ITEM_ANY);
    update.push(1); // ANY len = 1
    update.push(119); // Any tag: string
    push_string(&mut update, invalid);
    update.push(0);
    assert!(
        !is_update_bytes_safe(&update),
        "Any string with invalid UTF-8 must be rejected"
    );
}

#[test]
fn binary_block_accepts_non_utf8_bytes() {
    // BINARY block (BLOCK_ITEM_BINARY = 3): arbitrary bytes with no UTF-8
    // requirement. An update whose binary payload contains all-0xFF bytes
    // must be ACCEPTED — the validator must not over-reject non-UTF-8 content
    // in fields that have no UTF-8 invariant.
    let arbitrary_bytes: &[u8] = &[0xFF, 0xFE, 0x00, 0x01];
    let mut update = single_block_prefix(BLOCK_ITEM_BINARY);
    push_string(&mut update, arbitrary_bytes); // read_buf: length-prefixed, no UTF-8 check
    update.push(0);
    assert!(
        is_update_bytes_safe(&update),
        "BINARY block with non-UTF-8 bytes must be accepted (no UTF-8 requirement)"
    );
}

#[test]
fn multiple_blocks_second_has_invalid_utf8() {
    // Two blocks: first STRING block is well-formed, second STRING block
    // carries invalid UTF-8. The rejection must propagate from the second block.
    let valid: &[u8] = b"ok";
    let invalid: &[u8] = &[0xC3, 0x28];
    let mut update = Vec::new();
    update.push(1); // clients_len = 1
    update.push(2); // blocks_len = 2
    update.push(0); // client
    update.push(0); // clock
    // Block 1: STRING, parent_info=0→ID
    update.push(BLOCK_ITEM_STRING);
    update.push(0); // parent_info
    update.push(0); // parent id client
    update.push(0); // parent id clock
    push_string(&mut update, valid);
    // Block 2: STRING, parent_info=0→ID, invalid UTF-8
    update.push(BLOCK_ITEM_STRING);
    update.push(0);
    update.push(0);
    update.push(0);
    push_string(&mut update, invalid);
    update.push(0); // delete set client_len=0
    assert!(
        !is_update_bytes_safe(&update),
        "second block with invalid UTF-8 must cause overall rejection"
    );
}

#[test]
fn delete_set_truncation_rejected() {
    // A frame with zero blocks (clients_len=0 for the block section) followed
    // by a delete set that claims 10 id-ranges but provides only 1 byte.
    // The cursor's read_var hits end-of-buffer → reject (no over-read).
    let mut update = Vec::new();
    update.push(0); // clients_len = 0 (no blocks)
    // Delete set:
    update.push(1); // client_len = 1
    update.push(42); // client id (varint u64 = 42)
    update.push(10); // range_len = 10 (claims 10 (clock, range_len) pairs)
    update.push(7); // only one byte of data — far short of 10 pairs
    assert!(
        !is_update_bytes_safe(&update),
        "truncated delete set must be rejected"
    );
}

#[test]
fn unknown_any_tag_rejected() {
    // ANY block containing an Any value whose tag byte (100) is not in the
    // defined set (116-127). Must reject with BadTag.
    let mut update = single_block_prefix(BLOCK_ITEM_ANY);
    update.push(1); // ANY len = 1
    update.push(100); // unknown Any tag
    update.push(0);
    assert!(
        !is_update_bytes_safe(&update),
        "unknown Any tag must be rejected"
    );
}
