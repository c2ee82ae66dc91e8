//! The reasons for which updates are refused, and what holds of all updates, on examples.

use doc_core::grammar::{
    ANY_ARRAY, ANY_BIGINT, ANY_BUFFER, ANY_FALSE, ANY_FLOAT32, ANY_FLOAT64, ANY_INTEGER, ANY_MAP,
    ANY_NULL, ANY_STRING, ANY_TRUE, ANY_UNDEFINED, BLOCK_GC_REF, BLOCK_ITEM_ANY, BLOCK_ITEM_BINARY,
    BLOCK_ITEM_DELETED, BLOCK_ITEM_DOC, BLOCK_ITEM_EMBED, BLOCK_ITEM_FORMAT, BLOCK_ITEM_JSON,
    BLOCK_ITEM_STRING, BLOCK_ITEM_TYPE, BLOCK_SKIP_REF, HAS_ORIGIN, HAS_PARENT_SUB,
    HAS_RIGHT_ORIGIN, MAX_ANY_DEPTH, TYPE_REFS_ARRAY, TYPE_REFS_DOC, TYPE_REFS_MAP, TYPE_REFS_TEXT,
    TYPE_REFS_UNDEFINED, TYPE_REFS_XML_ELEMENT, TYPE_REFS_XML_FRAGMENT, TYPE_REFS_XML_HOOK,
    TYPE_REFS_XML_TEXT,
};
use doc_core::reader::Reader;
use doc_core::reject::Reject;
use doc_core::validate::{
    is_update_bytes_safe, read_string, walk_any, walk_block, walk_content, walk_update,
};

/// An update of one block without origins, in the parent with id (0, 0).
fn one_block(info: u8, body: &[u8]) -> Vec<u8> {
    let mut v = vec![1, 1, 0, 0, info, 0, 0, 0];
    v.extend_from_slice(body);
    v.push(0);
    v
}

/// An update whose one block holds the `Any` value given.
fn one_any(value: &[u8]) -> Vec<u8> {
    let mut body = vec![1];
    body.extend_from_slice(value);
    one_block(BLOCK_ITEM_ANY, &body)
}

fn nested_arrays(n: u32) -> Vec<u8> {
    let mut v = Vec::new();
    for _ in 0..n {
        v.push(ANY_ARRAY);
        v.push(1);
    }
    v.push(ANY_NULL);
    v
}

#[test]
fn the_least_update_is_accepted() {
    assert_eq!(walk_update(&[0, 0]), Ok(()));
    assert!(is_update_bytes_safe(&[0, 0]));
}

#[test]
fn each_reason_has_its_update() {
    assert_eq!(walk_update(&[]), Err(Reject::Cursor));
    assert_eq!(walk_update(&[0]), Err(Reject::Cursor));
    assert_eq!(walk_update(&one_block(BLOCK_ITEM_STRING, &[1, 0xff])), Err(Reject::InvalidUtf8));
    assert_eq!(walk_update(&one_block(0x0f, &[])), Err(Reject::BadTag));
    assert_eq!(walk_update(&one_any(&nested_arrays(MAX_ANY_DEPTH + 1))), Err(Reject::TooDeep));
    assert_eq!(walk_update(&[0, 0, 0]), Err(Reject::Trailing));
}

#[test]
fn an_invalid_string_comes_before_what_follows_it() {
    // Neither the missing value of the format nor anything else behind is reached.
    assert_eq!(
        walk_update(&[1, 1, 0, 0, BLOCK_ITEM_FORMAT, 0, 0, 0, 1, 0xff]),
        Err(Reject::InvalidUtf8)
    );
    assert_eq!(
        walk_update(&[1, 1, 0, 0, BLOCK_ITEM_FORMAT, 0, 0, 0, 1, b'k']),
        Err(Reject::Cursor)
    );
}

#[test]
fn nesting_stops_at_the_greatest_depth() {
    assert_eq!(walk_update(&one_any(&nested_arrays(MAX_ANY_DEPTH))), Ok(()));
    assert_eq!(walk_update(&one_any(&nested_arrays(MAX_ANY_DEPTH + 1))), Err(Reject::TooDeep));
    assert_eq!(walk_update(&one_any(&nested_arrays(MAX_ANY_DEPTH + 40))), Err(Reject::TooDeep));
}

#[test]
fn every_kind_of_any_value_is_walked() {
    for tag in [ANY_UNDEFINED, ANY_NULL, ANY_FALSE, ANY_TRUE] {
        assert_eq!(walk_update(&one_any(&[tag])), Ok(()));
    }
    assert_eq!(walk_update(&one_any(&[ANY_INTEGER, 0x41])), Ok(()));
    assert_eq!(walk_update(&one_any(&[ANY_INTEGER, 0x80, 0x01])), Ok(()));
    assert_eq!(walk_update(&one_any(&[ANY_FLOAT32, 1, 2, 3, 4])), Ok(()));
    assert_eq!(walk_update(&one_any(&[ANY_FLOAT64, 1, 2, 3, 4, 5, 6, 7, 8])), Ok(()));
    assert_eq!(walk_update(&one_any(&[ANY_BIGINT, 1, 2, 3, 4, 5, 6, 7, 8])), Ok(()));
    assert_eq!(walk_update(&one_any(&[ANY_STRING, 2, 0xc3, 0xa9])), Ok(()));
    assert_eq!(walk_update(&one_any(&[ANY_BUFFER, 2, 0xff, 0xfe])), Ok(()));
    assert_eq!(walk_update(&one_any(&[ANY_ARRAY, 2, ANY_NULL, ANY_TRUE])), Ok(()));
    assert_eq!(
        walk_update(&one_any(&[ANY_MAP, 2, 1, b'a', ANY_NULL, 0, ANY_ARRAY, 0])),
        Ok(())
    );
    // The value of the second entry is missing: the delete set's byte is no value.
    assert_eq!(
        walk_update(&one_any(&[ANY_MAP, 2, 1, b'a', ANY_NULL, 0])),
        Err(Reject::BadTag)
    );
}

#[test]
fn unknown_tags_are_refused_everywhere() {
    for tag in 0..ANY_BUFFER {
        assert_eq!(walk_update(&one_any(&[tag])), Err(Reject::BadTag));
    }
    for tag in 128..=255 {
        assert_eq!(walk_update(&one_any(&[tag])), Err(Reject::BadTag));
    }
    for kind in 11..=15 {
        assert_eq!(walk_update(&one_block(kind, &[])), Err(Reject::BadTag));
    }
    // The kinds of a collected and of a skipped range are none for an item with flags.
    assert_eq!(walk_update(&one_block(HAS_PARENT_SUB, &[0])), Err(Reject::BadTag));
    assert_eq!(walk_update(&one_block(HAS_PARENT_SUB | BLOCK_SKIP_REF, &[0])), Err(Reject::BadTag));
    for tag in 0..=255 {
        let plain = [
            TYPE_REFS_ARRAY,
            TYPE_REFS_MAP,
            TYPE_REFS_TEXT,
            TYPE_REFS_XML_FRAGMENT,
            TYPE_REFS_XML_HOOK,
            TYPE_REFS_XML_TEXT,
            TYPE_REFS_DOC,
            TYPE_REFS_UNDEFINED,
        ]
        .contains(&tag);
        if tag != TYPE_REFS_XML_ELEMENT {
            let expected = if plain { Ok(()) } else { Err(Reject::BadTag) };
            assert_eq!(walk_update(&one_block(BLOCK_ITEM_TYPE, &[tag])), expected);
        }
    }
    assert_eq!(
        walk_update(&one_block(BLOCK_ITEM_TYPE, &[TYPE_REFS_XML_ELEMENT, 1, b'p'])),
        Ok(())
    );
}

#[test]
fn every_kind_of_content_is_walked() {
    assert_eq!(walk_update(&one_block(BLOCK_ITEM_DELETED, &[7])), Ok(()));
    // JSON content holds one string more than it says.
    assert_eq!(walk_update(&one_block(BLOCK_ITEM_JSON, &[1, 1, b'1', 1, b'2'])), Ok(()));
    assert_eq!(walk_update(&one_block(BLOCK_ITEM_JSON, &[0, 1, b'1'])), Ok(()));
    assert_eq!(walk_update(&one_block(BLOCK_ITEM_JSON, &[1, 1, b'1'])), Err(Reject::Cursor));
    assert_eq!(walk_update(&one_block(BLOCK_ITEM_EMBED, &[2, b'{', b'}'])), Ok(()));
    assert_eq!(walk_update(&one_block(BLOCK_ITEM_FORMAT, &[1, b'k', 1, b'v'])), Ok(()));
    assert_eq!(walk_update(&one_block(BLOCK_ITEM_ANY, &[0])), Ok(()));
    assert_eq!(walk_update(&one_block(BLOCK_ITEM_DOC, &[1, b'g', ANY_MAP, 0])), Ok(()));
}

#[test]
fn one_string_decides() {
    let texts = [
        &b""[..],
        b"ok",
        "caf\u{e9}".as_bytes(),
        &[0xc3, 0x28],
        &[0xff],
        &[0xed, 0xa0, 0x80],
    ];
    for text in texts {
        let mut body = vec![text.len() as u8];
        body.extend_from_slice(text);
        let valid = std::str::from_utf8(text).is_ok();
        assert_eq!(is_update_bytes_safe(&one_block(BLOCK_ITEM_STRING, &body)), valid);
        assert_eq!(is_update_bytes_safe(&one_block(BLOCK_ITEM_EMBED, &body)), valid);
        assert!(is_update_bytes_safe(&one_block(BLOCK_ITEM_BINARY, &body)));
    }
}

#[test]
fn long_strings_decide_too() {
    let mut body = vec![0xac, 0x02];
    body.extend_from_slice(&[b'a'; 300]);
    assert!(is_update_bytes_safe(&one_block(BLOCK_ITEM_STRING, &body)));
    // The same length, spelled with a byte more than it needs.
    let mut spelled = vec![0xac, 0x82, 0x00];
    spelled.extend_from_slice(&[b'a'; 300]);
    assert!(is_update_bytes_safe(&one_block(BLOCK_ITEM_STRING, &spelled)));
    body[301] = 0xff;
    assert_eq!(walk_update(&one_block(BLOCK_ITEM_STRING, &body)), Err(Reject::InvalidUtf8));
    assert!(is_update_bytes_safe(&one_block(BLOCK_ITEM_BINARY, &body)));
}

#[test]
fn formats_check_key_and_value() {
    for (key, value) in [(b'k', b'v'), (0xff, b'v'), (b'k', 0xff), (0xff, 0xff)] {
        let update = one_block(BLOCK_ITEM_FORMAT, &[1, key, 1, value]);
        assert_eq!(is_update_bytes_safe(&update), key != 0xff && value != 0xff);
    }
}

#[test]
fn over_long_numbers_are_refused() {
    // The number of clients, in eleven bytes and in twelve.
    let mut update = vec![0x80; 10];
    update.extend_from_slice(&[0, 0]);
    assert_eq!(walk_update(&update), Ok(()));
    let mut update = vec![0x80; 11];
    update.extend_from_slice(&[0, 0]);
    assert_eq!(walk_update(&update), Err(Reject::Cursor));
    // A client id in the delete set.
    let mut update = vec![0, 1];
    update.extend_from_slice(&[0x80; 11]);
    update.extend_from_slice(&[0, 0]);
    assert_eq!(walk_update(&update), Err(Reject::Cursor));
}

#[test]
fn ranges_and_origins_are_walked() {
    // A collected and a skipped range, then an item with each combination of origins.
    assert_eq!(walk_update(&[1, 2, 5, 0, BLOCK_GC_REF, 3, BLOCK_SKIP_REF, 4, 0]), Ok(()));
    assert_eq!(walk_update(&[1, 1, 5, 0, HAS_ORIGIN | BLOCK_ITEM_DELETED, 9, 1, 2, 0]), Ok(()));
    assert_eq!(
        walk_update(&[1, 1, 5, 0, HAS_RIGHT_ORIGIN | BLOCK_ITEM_DELETED, 9, 1, 2, 0]),
        Ok(())
    );
    let both = HAS_ORIGIN | HAS_RIGHT_ORIGIN | BLOCK_ITEM_DELETED;
    assert_eq!(walk_update(&[1, 1, 5, 0, both, 9, 1, 8, 2, 2, 0]), Ok(()));
    // With an origin the key in the parent is not spelled out, whatever the flag says.
    let keyed = HAS_ORIGIN | HAS_PARENT_SUB | BLOCK_ITEM_DELETED;
    assert_eq!(walk_update(&[1, 1, 5, 0, keyed, 9, 1, 2, 0]), Ok(()));
    // A named parent, and a key in it.
    let keyed = HAS_PARENT_SUB | BLOCK_ITEM_DELETED;
    assert_eq!(walk_update(&[1, 1, 5, 0, keyed, 1, 1, b'm', 1, b'k', 2, 0]), Ok(()));
}

#[test]
fn delete_sets_are_walked() {
    assert_eq!(walk_update(&[0, 2, 42, 2, 0, 1, 5, 2, 43, 0]), Ok(()));
    assert_eq!(walk_update(&[0, 2, 42, 2, 0, 1, 5, 2, 43]), Err(Reject::Cursor));
    assert_eq!(walk_update(&[0, 1, 42, 1, 0, 1, 0]), Err(Reject::Trailing));
}

#[test]
fn every_cut_runs_out_of_bytes_and_every_addition_is_left_over() {
    let update = one_block(BLOCK_ITEM_DOC, &[1, b'g', ANY_MAP, 1, 1, b'k', ANY_STRING, 1, b'v']);
    assert_eq!(walk_update(&update), Ok(()));
    for cut in 0..update.len() {
        assert_eq!(walk_update(&update[..cut]), Err(Reject::Cursor));
    }
    for more in [0u8, 1, 0x80, 0xff] {
        let mut longer = update.clone();
        longer.push(more);
        assert_eq!(walk_update(&longer), Err(Reject::Trailing));
    }
}

#[test]
fn refusals_stand_whatever_follows() {
    for refused in [
        one_block(BLOCK_ITEM_STRING, &[1, 0xff]),
        one_block(0x0f, &[]),
        one_any(&nested_arrays(MAX_ANY_DEPTH + 1)),
        vec![0, 0, 0],
    ] {
        let reason = walk_update(&refused);
        for more in [0u8, 1, 0x7f, 0xff] {
            let mut longer = refused.clone();
            longer.push(more);
            assert_eq!(walk_update(&longer), reason);
        }
    }
}

#[test]
fn over_long_signed_integers_are_refused() {
    let mut value = vec![ANY_INTEGER];
    value.extend_from_slice(&[0x80; 10]);
    value.push(0x01);
    assert_eq!(walk_update(&one_any(&value)), Err(Reject::Cursor));
    let mut value = vec![ANY_INTEGER];
    value.extend_from_slice(&[0x80; 9]);
    value.push(0x01);
    assert_eq!(walk_update(&one_any(&value)), Ok(()));
}

#[test]
fn an_over_long_field_is_refused() {
    assert_eq!(walk_update(&one_block(BLOCK_ITEM_STRING, &[5, b'a'])), Err(Reject::Cursor));
    assert_eq!(
        walk_update(&one_block(BLOCK_ITEM_BINARY, &[0xff, 0xff, 0xff, 0xff, 0x0f])),
        Err(Reject::Cursor)
    );
}

#[test]
fn values_do_not_matter() {
    // One client with a collected range, a skipped one and a deleted item, and a deleted range:
    // block count, client, clock, then for each block its info byte and its numbers.
    let plain = [
        1, 3, 0, 0, BLOCK_GC_REF, 0, BLOCK_SKIP_REF, 0, HAS_ORIGIN | BLOCK_ITEM_DELETED, 0, 0, 0, 1,
        0, 1, 0, 0,
    ];
    assert_eq!(walk_update(&plain), Ok(()));
    let most = [0xff, 0xff, 0xff, 0xff, 0xff, 0xff, 0xff, 0xff, 0xff, 0x01];
    for number in [&[7][..], &[0xe5, 0x8e, 0x26], &[0x80, 0x00], &most] {
        let mut other = Vec::new();
        for (i, byte) in plain.iter().enumerate() {
            if [2, 3, 5, 7, 9, 10, 11, 13, 15, 16].contains(&i) {
                other.extend_from_slice(number);
            } else {
                other.push(*byte);
            }
        }
        assert_eq!(walk_update(&other), Ok(()));
        // Nor do the values matter where something is refused.
        other.push(0);
        assert_eq!(walk_update(&other), Err(Reject::Trailing));
    }
}

#[test]
fn the_spare_bit_is_ignored() {
    for info in 0..=255u8 {
        if [0, 10, 16, 26].contains(&info) {
            continue;
        }
        for body in [&[1, b'a'][..], &[0], &[1, 0xff], &[], &[2, 1, b'a', 1, b'b', 1, b'c']] {
            assert_eq!(
                walk_update(&one_block(info, body)),
                walk_update(&one_block(info ^ 0x10, body))
            );
        }
    }
    // Without an item the bit does matter: a collected range becomes an item of no known kind.
    assert_eq!(walk_update(&[1, 1, 0, 0, BLOCK_GC_REF, 3, 0]), Ok(()));
    assert_eq!(walk_update(&[1, 1, 0, 0, 16, 3, 0, 0, 0]), Err(Reject::BadTag));
}

#[test]
fn only_the_low_bits_are_the_kind_of_content() {
    // The same text behind each combination of the other bits that leaves the place as it is.
    for high in [0, 0x10] {
        assert_eq!(walk_update(&one_block(high | BLOCK_ITEM_STRING, &[1, b'a'])), Ok(()));
    }
    for high in [HAS_ORIGIN, HAS_RIGHT_ORIGIN, HAS_ORIGIN | HAS_PARENT_SUB] {
        let info = high | BLOCK_ITEM_STRING;
        assert_eq!(walk_update(&[1, 1, 0, 0, info, 0, 0, 1, b'a', 0]), Ok(()));
        assert_eq!(walk_update(&[1, 1, 0, 0, info, 0, 0, 1, 0xff, 0]), Err(Reject::InvalidUtf8));
    }
}

#[test]
fn values_side_by_side_do_not_add_up_to_depth() {
    let mut wide = vec![ANY_ARRAY, 0xac, 0x02];
    for _ in 0..300 {
        wide.extend_from_slice(&[ANY_ARRAY, 1, ANY_NULL]);
    }
    assert_eq!(walk_update(&one_any(&wide)), Ok(()));
    // What is accepted inside other values is accepted by itself.
    let mut inside = nested_arrays(MAX_ANY_DEPTH);
    for _ in 0..=MAX_ANY_DEPTH {
        assert_eq!(walk_update(&one_any(&inside)), Ok(()));
        inside = inside[2.min(inside.len() - 1)..].to_vec();
    }
}

/// What is unread.
fn left(mut cur: Reader<'_>) -> Vec<u8> {
    let mut bytes = Vec::new();
    while let Ok(byte) = cur.read_u8() {
        bytes.push(byte);
    }
    bytes
}

#[test]
fn refusals_leave_the_reader_where_they_came() {
    let bytes = [2, 0xc3, 0x28, 9, 9];
    let mut cur = Reader::new(&bytes);
    assert_eq!(read_string(&mut cur), Err(Reject::InvalidUtf8));
    assert_eq!(left(cur), [9, 9]);
    let mut cur = Reader::new(&bytes);
    assert_eq!(walk_any(&mut cur, MAX_ANY_DEPTH + 1), Err(Reject::TooDeep));
    assert_eq!(left(cur), bytes);
    let mut cur = Reader::new(&bytes);
    assert_eq!(walk_any(&mut cur, MAX_ANY_DEPTH), Err(Reject::BadTag));
    assert_eq!(left(cur), [0xc3, 0x28, 9, 9]);
    for info in [0, 10, 11, 15, 0x1f, 0xf0] {
        let mut cur = Reader::new(&bytes);
        assert_eq!(walk_content(&mut cur, info), Err(Reject::BadTag));
        assert_eq!(left(cur), bytes);
    }
    // A number that does not end is passed.
    let mut cur = Reader::new(&[BLOCK_GC_REF, 0x80]);
    assert_eq!(walk_block(&mut cur), Err(Reject::Cursor));
    assert!(!cur.has_content());
}

#[test]
fn the_spare_bit_changes_neither_result_nor_rest() {
    for info in 0..=255u8 {
        if [0, 10, 16, 26].contains(&info) {
            continue;
        }
        let rest = [0, 1, 2, 1, b'a', 1, 0xff, 3];
        let (mut one, mut other) = (vec![info], vec![info ^ 0x10]);
        one.extend_from_slice(&rest);
        other.extend_from_slice(&rest);
        let (mut c1, mut c2) = (Reader::new(&one), Reader::new(&other));
        assert_eq!(walk_block(&mut c1), walk_block(&mut c2));
        assert_eq!(left(c1), left(c2));
        let (mut c1, mut c2) = (Reader::new(&rest), Reader::new(&rest));
        assert_eq!(walk_content(&mut c1, info), walk_content(&mut c2, info & 0x0f));
        assert_eq!(left(c1), left(c2));
    }
}

#[test]
fn a_smaller_depth_refuses_no_more() {
    let bytes = nested_arrays(3);
    let limit = MAX_ANY_DEPTH - 3;
    for depth in [0, 1, 100, limit] {
        let mut cur = Reader::new(&bytes);
        assert_eq!(walk_any(&mut cur, depth), Ok(()));
        assert!(!cur.has_content());
    }
    assert_eq!(walk_any(&mut Reader::new(&bytes), limit + 1), Err(Reject::TooDeep));
}
