//! The reads that the guard is made of, value by value.

use doc_core::reader::Reader;
use doc_core::reject::Reject;
use yrs::encoding::read::{Cursor, Read};

#[test]
fn reads_bytes_to_the_end() {
    let mut cur = Reader::new(&[7, 200]);
    assert!(cur.has_content());
    assert_eq!(cur.read_u8(), Ok(7));
    assert_eq!(cur.read_u8(), Ok(200));
    assert!(!cur.has_content());
    assert_eq!(cur.read_u8(), Err(Reject::Cursor));
}

/// How many bytes are unread.
fn left(cur: &mut Reader<'_>) -> usize {
    let mut n = 0;
    while cur.read_u8().is_ok() {
        n += 1;
    }
    n
}

#[test]
fn failed_reads_of_fixed_width_stay_where_they_were() {
    let mut cur = Reader::new(&[0x80, 0x81, 7]);
    assert_eq!(cur.read_f64(), Err(Reject::Cursor));
    assert_eq!(cur.read_i64(), Err(Reject::Cursor));
    assert_eq!(cur.read_f32(), Err(Reject::Cursor));
    // Of a buffer that is too long, its length has been read.
    let mut long = Reader::new(&[0x05, 1, 2]);
    assert_eq!(long.read_buf(), Err(Reject::Cursor));
    assert_eq!(left(&mut long), 2);
    assert_eq!(left(&mut cur), 3);
}

#[test]
fn failed_numbers_are_passed_as_far_as_they_were_looked_at() {
    let mut cur = Reader::new(&[0x80]);
    assert_eq!(cur.read_var_u32(), Err(Reject::Cursor));
    assert!(!cur.has_content());
    let mut cur = Reader::new(&[0x80; 14]);
    assert_eq!(cur.read_var_u64(), Err(Reject::Cursor));
    assert_eq!(left(&mut cur), 3);
    let mut cur = Reader::new(&[0x80; 14]);
    assert_eq!(cur.read_buf(), Err(Reject::Cursor));
    assert_eq!(left(&mut cur), 3);
    let mut cur = Reader::new(&[0x80; 10]);
    assert_eq!(cur.read_var_i64(), Err(Reject::Cursor));
    assert!(!cur.has_content());
    // Integers that overflow, with an eleventh byte and with the least magnitude.
    let mut cur = Reader::new(&[0x80; 14]);
    assert_eq!(cur.read_var_i64(), Err(Reject::Cursor));
    assert_eq!(left(&mut cur), 3);
    let mut least = vec![0xc0];
    least.extend_from_slice(&[0x80; 8]);
    least.extend_from_slice(&[0x02, 1, 1, 1]);
    let mut cur = Reader::new(&least);
    assert_eq!(cur.read_var_i64(), Err(Reject::Cursor));
    assert_eq!(left(&mut cur), 3);
}

#[test]
fn reads_go_as_far_as_those_of_the_yrs_cursor() {
    for len in 0..14 {
        for end in 0..=len {
            // All bytes go on but one, or none at all.
            let mut bytes = vec![0x81; len];
            if end < len {
                bytes[end] = 0x05;
            }
            let mut theirs = Cursor::new(&bytes);
            let mut ours = Reader::new(&bytes);
            let value: Option<u32> = theirs.read_var().ok();
            assert_eq!(ours.read_var_u32().ok(), value);
            assert_eq!(left(&mut ours), len - theirs.next);
            let mut theirs = Cursor::new(&bytes);
            let mut ours = Reader::new(&bytes);
            let value: Option<u64> = theirs.read_var().ok();
            assert_eq!(ours.read_var_u64().ok(), value);
            assert_eq!(left(&mut ours), len - theirs.next);
            let mut theirs = Cursor::new(&bytes);
            let mut ours = Reader::new(&bytes);
            assert_eq!(ours.read_buf().ok(), theirs.read_buf().ok());
            assert_eq!(left(&mut ours), len - theirs.next);
            if len <= 10 || end < 10 {
                let mut theirs = Cursor::new(&bytes);
                let mut ours = Reader::new(&bytes);
                let value: Option<i64> = theirs.read_var().ok();
                assert_eq!(ours.read_var_i64().is_ok(), value.is_some());
                assert_eq!(left(&mut ours), len - theirs.next);
            }
            let mut theirs = Cursor::new(&bytes);
            let mut ours = Reader::new(&bytes);
            assert_eq!(ours.read_f32().is_ok(), theirs.read_f32().is_ok());
            assert_eq!(ours.read_i64().is_ok(), theirs.read_i64().is_ok());
            assert_eq!(left(&mut ours), len - theirs.next);
        }
    }
}

#[test]
fn reads_unsigned_numbers_low_bits_first() {
    let mut cur = Reader::new(&[0x00, 0x7f, 0x80, 0x01, 0xe5, 0x8e, 0x26, 9]);
    assert_eq!(cur.read_var_u32(), Ok(0));
    assert_eq!(cur.read_var_u32(), Ok(127));
    assert_eq!(cur.read_var_u32(), Ok(128));
    assert_eq!(cur.read_var_u32(), Ok(624_485));
    assert_eq!(cur.read_u8(), Ok(9));
    let mut cur = Reader::new(&[0xff, 0xff, 0xff, 0xff, 0x0f]);
    assert_eq!(cur.read_var_u32(), Ok(u32::MAX));
}

#[test]
fn reads_unsigned_numbers_of_up_to_eleven_bytes() {
    // Past the last bit the position wraps around: 35 bits on is 3 bits on, of 32.
    let mut cur = Reader::new(&[0x80, 0x80, 0x80, 0x80, 0x80, 0x01]);
    assert_eq!(cur.read_var_u32(), Ok(8));
    let mut long = vec![0x80; 10];
    long.push(0x01);
    // 70 bits on is 6 bits on, of 32 and of 64.
    assert_eq!(Reader::new(&long).read_var_u32(), Ok(64));
    assert_eq!(Reader::new(&long).read_var_u64(), Ok(64));
    let mut longer = vec![0x80; 11];
    longer.push(0x01);
    assert_eq!(Reader::new(&longer).read_var_u32(), Err(Reject::Cursor));
    assert_eq!(Reader::new(&longer).read_var_u64(), Err(Reject::Cursor));
}

#[test]
fn reads_wide_numbers() {
    let mut bytes = vec![0xff; 9];
    bytes.push(0x01);
    bytes.push(42);
    let mut cur = Reader::new(&bytes);
    assert_eq!(cur.read_var_u64(), Ok(u64::MAX));
    assert_eq!(cur.read_u8(), Ok(42));
    assert_eq!(Reader::new(&[0x80]).read_var_u64(), Err(Reject::Cursor));
    assert_eq!(Reader::new(&[0x80, 0x80, 0x80, 0x80, 0x10]).read_var_u64(), Ok(1 << 32));
    assert_eq!(Reader::new(&[0x80, 0x80, 0x80, 0x80, 0x10]).read_var_u32(), Ok(0));
}

#[test]
fn reads_past_signed_numbers() {
    // 0, -1, 64, a negative number of three bytes.
    let mut cur = Reader::new(&[0x00, 0x41, 0x80, 0x01, 0xff, 0xff, 0x01, 5]);
    for _ in 0..4 {
        assert_eq!(cur.read_var_i64(), Ok(()));
    }
    assert_eq!(cur.read_u8(), Ok(5));
    assert_eq!(Reader::new(&[]).read_var_i64(), Err(Reject::Cursor));
    assert_eq!(Reader::new(&[0x80; 3]).read_var_i64(), Err(Reject::Cursor));
    assert_eq!(Reader::new(&[0x80; 10]).read_var_i64(), Err(Reject::Cursor));
}

#[test]
fn signed_numbers_end_within_ten_bytes() {
    let mut ten = vec![0x80; 9];
    ten.push(0x01);
    ten.push(6);
    let mut cur = Reader::new(&ten);
    assert_eq!(cur.read_var_i64(), Ok(()));
    assert_eq!(cur.read_u8(), Ok(6));
    let mut eleven = vec![0x80; 10];
    eleven.push(0x01);
    assert_eq!(Reader::new(&eleven).read_var_i64(), Err(Reject::Cursor));
    assert_eq!(Reader::new(&[0x80; 12]).read_var_i64(), Err(Reject::Cursor));
}

#[test]
fn the_least_signed_magnitude_is_not_negated() {
    let mut least = vec![0xc0];
    least.extend_from_slice(&[0x80; 8]);
    least.push(0x02);
    assert_eq!(Reader::new(&least).read_var_i64(), Err(Reject::Cursor));
    // The same bits without the sign, and with the sign one bit more, are readable.
    let mut unsigned = least.clone();
    unsigned[0] = 0x80;
    assert_eq!(Reader::new(&unsigned).read_var_i64(), Ok(()));
    let mut other = least.clone();
    other[9] = 0x03;
    assert_eq!(Reader::new(&other).read_var_i64(), Ok(()));
    let mut other = least.clone();
    other[5] = 0x81;
    assert_eq!(Reader::new(&other).read_var_i64(), Ok(()));
    let mut other = least;
    other[9] = 0x06;
    assert_eq!(Reader::new(&other).read_var_i64(), Err(Reject::Cursor));
}

#[test]
fn reads_buffers() {
    let mut cur = Reader::new(&[3, 10, 20, 30, 0, 2, 1]);
    assert_eq!(cur.read_buf(), Ok(&[10u8, 20, 30][..]));
    assert_eq!(cur.read_buf(), Ok(&[][..]));
    assert_eq!(cur.read_buf(), Err(Reject::Cursor));
    let huge = [0xff, 0xff, 0xff, 0xff, 0x0f, 1];
    assert_eq!(Reader::new(&huge).read_buf(), Err(Reject::Cursor));
}

#[test]
fn reads_past_fixed_width_numbers() {
    let bytes: Vec<u8> = (0..21).collect();
    let mut cur = Reader::new(&bytes);
    assert_eq!(cur.read_f32(), Ok(()));
    assert_eq!(cur.read_f64(), Ok(()));
    assert_eq!(cur.read_i64(), Ok(()));
    assert_eq!(cur.read_u8(), Ok(20));
    assert_eq!(Reader::new(&[0; 3]).read_f32(), Err(Reject::Cursor));
    assert_eq!(Reader::new(&[0; 7]).read_f64(), Err(Reject::Cursor));
    assert_eq!(Reader::new(&[0; 7]).read_i64(), Err(Reject::Cursor));
}
