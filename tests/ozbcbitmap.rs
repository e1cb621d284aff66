use bitrush_index::{Bitmap, OZBCBitmap};

fn from_positions(ps: &[u32]) -> OZBCBitmap {
    let mut b = OZBCBitmap::new();
    for p in ps.iter() {
        b.set(*p);
    }
    b
}

fn serialize(b: &OZBCBitmap) -> Vec<u8> {
    let mut buf: Vec<u8> = vec![0; b.size()];
    let n = b.write_to_buffer(&mut buf).unwrap();
    assert_eq!(n, buf.len());
    buf
}

#[test]
fn set_base() {
    let mut b0 = OZBCBitmap::new();
    let mut b1 = b0.clone();
    let values = [0, 1, 100, 100000, 99999, 2, 100001, 1000000];
    let values_ok = [0, 1, 100, 100000, 100001, 1000000];

    for val in values.iter() {
        b0.set(*val);
    }

    for val in values_ok.iter() {
        b1.set(*val);
    }

    assert_eq!(b0, b1);
}

#[test]
fn bitand_and_unroll() {
    let mut b0 = OZBCBitmap::new();
    let mut b1 = b0.clone();
    let values_0 = [0, 1, 100, 100000, 100009, 1000000, 1000100, 1060000];
    let values_1 = [
        1, 7, 9, 99999, 100000, 100001, 100101, 1060000, 1060001, 2060001,
    ];
    let values_and = [1, 100000, 1060000];

    for val in values_0.iter() {
        b0.set(*val);
    }

    for val in values_1.iter() {
        b1.set(*val);
    }

    let b_and = b0.bitand(&b1);
    let unrolled_values = b_and.unroll_bitmap();

    assert_eq!(unrolled_values, values_and);
}

#[test]
fn unroll_lists_sorted_unique_positions() {
    let b = from_positions(&[3, 3, 8, 9, 9, 4000, 4000, 70000]);
    assert_eq!(b.unroll_bitmap(), vec![3, 8, 9, 4000, 70000]);
}

#[test]
fn out_of_order_set_in_same_byte() {
    // A higher bit of the last byte is merged; a lower one is ignored.
    let mut b = from_positions(&[10]);
    b.set(13);
    b.set(11);
    b.set(12);
    assert_eq!(b.unroll_bitmap(), vec![10, 13]);
}

#[test]
fn empty_bitmap() {
    let b = OZBCBitmap::new();
    assert_eq!(b.unroll_bitmap(), Vec::<u32>::new());
    assert_eq!(b.size(), 4);
    assert_eq!(serialize(&b), vec![0, 0, 0, 0]);
}

#[test]
fn serialized_layout_is_little_endian() {
    // Position 9 is bit 1 of byte 1: one literal word with one zero byte before it.
    let b = from_positions(&[9]);
    assert_eq!(serialize(&b), vec![2, 0, 0, 0, 0x02, 0x01]);
}

#[test]
fn first_bit_and_chunk_edges() {
    let last = (1u32 << 20) - 1;
    let b = from_positions(&[0, last, last + 1]);
    assert_eq!(b.unroll_bitmap(), vec![0, last, last + 1]);
}

#[test]
fn long_zero_runs_round_trip() {
    // Gaps beyond one run word's reach (ZMAX * 128 bytes) need chained run words.
    let far = 2 * 0x7fff * 128 * 8 + 12345;
    let b = from_positions(&[5, far, far + 3, u32::MAX]);
    assert_eq!(b.unroll_bitmap(), vec![5, far, far + 3, u32::MAX]);
    let buf = serialize(&b);
    let mut back = OZBCBitmap::new();
    assert!(back.read_from_buffer(&buf, true).is_ok());
    assert_eq!(back, b);
    assert_eq!(back.unroll_bitmap(), b.unroll_bitmap());
}

#[test]
fn write_read_round_trip() {
    let mut ps: Vec<u32> = Vec::new();
    let mut x: u64 = 12345;
    let mut last: u32 = 0;
    for _ in 0..20000 {
        x = x.wrapping_mul(6364136223846793005).wrapping_add(1442695040888963407);
        last = last.wrapping_add((x >> 50) as u32 + 1);
        if last < 4_000_000_000 {
            ps.push(last);
        }
    }
    let b0 = from_positions(&ps);
    let buf = serialize(&b0);
    let mut b1 = OZBCBitmap::new();
    assert!(b1.read_from_buffer(&buf, true).is_ok());
    assert_eq!(b1, b0);
    assert_eq!(b1.unroll_bitmap(), ps);
}

#[test]
fn write_to_short_buffer_fails() {
    let b = from_positions(&[1, 2, 3000]);
    let mut buf: Vec<u8> = vec![7; b.size() - 1];
    assert!(b.write_to_buffer(&mut buf).is_err());
    assert!(buf.iter().all(|x| *x == 7));
}

#[test]
fn read_rejects_wrong_byte_count() {
    let b = from_positions(&[1, 2, 3000]);
    let mut buf = serialize(&b);
    buf[0] = buf[0].wrapping_add(1);
    let mut r = OZBCBitmap::new();
    assert!(r.read_from_buffer(&buf, true).is_err());
    assert_eq!(r, OZBCBitmap::new());
    // Without the check the bytes are taken as they are.
    assert!(r.read_from_buffer(&buf, false).is_ok());
    assert_ne!(r, OZBCBitmap::new());
}

#[test]
fn read_rejects_short_input() {
    let mut r = OZBCBitmap::new();
    assert!(r.read_from_buffer(&[1, 0, 0], false).is_err());
}

#[test]
fn intersection_is_exact() {
    let a = from_positions(&[0, 5, 1000, 1001, 500_000, 9_000_000]);
    let b = from_positions(&[5, 6, 1001, 600_000, 9_000_000, 9_000_001]);
    assert_eq!(a.bitand(&b).unroll_bitmap(), vec![5, 1001, 9_000_000]);
    assert_eq!(b.bitand(&a).unroll_bitmap(), vec![5, 1001, 9_000_000]);
    let empty = OZBCBitmap::new();
    assert_eq!(a.bitand(&empty).unroll_bitmap(), Vec::<u32>::new());
}

#[test]
fn intersection_with_no_common_position() {
    let a = from_positions(&[1, 3, 5]);
    let b = from_positions(&[0, 2, 4]);
    let c = a.bitand(&b);
    assert_eq!(c.unroll_bitmap(), Vec::<u32>::new());
    assert_eq!(c, OZBCBitmap::new());
}

#[test]
fn buffer_num_bytes() {
    assert_eq!(OZBCBitmap::get_buffer_num_bytes(&vec![0x0001, 0x0301]), Some(1 + 4));
    assert_eq!(OZBCBitmap::get_buffer_num_bytes(&vec![0x8002]), Some(256));
    assert_eq!(OZBCBitmap::get_buffer_num_bytes(&vec![0xffff; 2000]), None);
}

#[test]
fn check_accepts_any_matching_count() {
    // A count of 128 bytes and one run word of one 128-byte block.
    let buf = [128u8, 0, 0, 0, 1, 128];
    let mut checked = OZBCBitmap::new();
    assert!(checked.read_from_buffer(&buf, true).is_ok());
    let mut unchecked = OZBCBitmap::new();
    assert!(unchecked.read_from_buffer(&buf, false).is_ok());
    assert_eq!(checked, unchecked);
    let mut bad = OZBCBitmap::new();
    assert!(bad.read_from_buffer(&[129u8, 0, 0, 0, 1, 128], true).is_err());
}

#[test]
fn run_chain_size() {
    let mut b = OZBCBitmap::new();
    b.set(0);
    b.set(2147483648);
    // One literal, 64 full run words, one run word and one literal.
    assert_eq!(b.size(), 138);
    let buf = serialize(&b);
    let mut c = OZBCBitmap::new();
    assert!(c.read_from_buffer(&buf, true).is_ok());
    assert_eq!(c, b);
    assert_eq!(c.unroll_bitmap(), vec![0, 2147483648]);
}

#[test]
fn intersection_is_canonical() {
    let a = from_positions(&[0, 1, 100, 100_000, 100_009, 1_000_000, 1_000_100, 1_060_000]);
    let b = from_positions(&[1, 7, 9, 99_999, 100_000, 100_001, 100_101, 1_060_000, 1_060_001, 2_060_001]);
    let ab = a.bitand(&b);
    assert_eq!(ab, b.bitand(&a));
    assert_eq!(ab, from_positions(&[1, 100_000, 1_060_000]));
    assert_eq!(a.bitand(&a), a);
    assert_eq!(a.bitand(&OZBCBitmap::new()), OZBCBitmap::new());
    assert_eq!(ab.size(), serialize(&from_positions(&[1, 100_000, 1_060_000])).len());
}

#[test]
fn ignored_set_leaves_bitmap_unchanged() {
    let before = from_positions(&[5, 700, 90_000]);
    let mut b = before.clone();
    b.set(90_000);
    b.set(699);
    b.set(3);
    assert_eq!(b, before);
}
