use bitrush_index::bitmap_index::push_indexes;
use bitrush_index::storage::{
    chunk_span, chunk_start_in, chunks_to_read, read_bitmap_offset, read_bitmaps, read_chunks_offsets, write_chunk,
};
use bitrush_index::{
    new_default_index_options, Bitmap, BitmapIndex, BuildOptions, ChunkSize, Error, MetaData,
    OZBCBitmap,
};

fn brute(values: &[u32], v: u32, start: u64, end: u64) -> Vec<u64> {
    values
        .iter()
        .enumerate()
        .filter(|(i, x)| **x == v && *i as u64 >= start && *i as u64 <= end)
        .map(|(i, _)| i as u64)
        .collect()
}

fn pseudo_random(n: usize, seed: u64, modulo: u32) -> Vec<u32> {
    let mut x = seed;
    let mut out = Vec::with_capacity(n);
    for _ in 0..n {
        x = x.wrapping_mul(6364136223846793005).wrapping_add(1442695040888963407);
        out.push(((x >> 33) as u32) % modulo);
    }
    out
}

fn memory_index(values: &[u32], chunk: ChunkSize) -> BitmapIndex<OZBCBitmap, u32> {
    let mut idx = BitmapIndex::<OZBCBitmap, u32>::new(BuildOptions::new(16, chunk)).unwrap();
    let sealed = idx.push_values(values);
    assert!(sealed.is_empty());
    idx
}

#[test]
fn trivial_query() {
    let idx = memory_index(&[7, 42, 7, 7, 100], ChunkSize::M1);
    assert_eq!(idx.run_query(7, None, None).unwrap(), vec![0, 2, 3]);
    assert_eq!(idx.run_query(42, None, None).unwrap(), vec![1]);
    assert_eq!(idx.num_values(), 5);
}

#[test]
fn cross_chunk_query() {
    let c: usize = 1 << 20;
    let mut values = vec![5u32; c];
    values.push(9);
    values.extend(std::iter::repeat(5u32).take(c));
    let idx = memory_index(&values, ChunkSize::M1);
    assert_eq!(idx.run_query(9, None, None).unwrap(), vec![c as u64]);
    let fives = idx.run_query(5, None, None).unwrap();
    assert_eq!(fives.len(), 2 * c);
    assert_eq!(fives[0], 0);
    assert_eq!(*fives.last().unwrap(), (2 * c) as u64);
    assert!(!fives.contains(&(c as u64)));
}

#[test]
fn range_restricted_query() {
    let values: Vec<u32> = (0..1000u32).map(|i| i % 4).collect();
    let idx = memory_index(&values, ChunkSize::M1);
    let r = idx.run_query(2, Some(100), Some(500)).unwrap();
    let expected: Vec<u64> = (0..100u64).map(|k| 102 + 4 * k).collect();
    assert_eq!(r.len(), 100);
    assert_eq!(r, expected);
}

#[test]
fn query_range_edges() {
    let values: Vec<u32> = (0..50u32).map(|i| i % 3).collect();
    let idx = memory_index(&values, ChunkSize::M1);
    assert_eq!(idx.run_query(1, Some(30), Some(10)).unwrap(), Vec::<u64>::new());
    assert_eq!(idx.run_query(1, Some(13), Some(13)).unwrap(), vec![13]);
    assert_eq!(idx.run_query(1, Some(12), Some(12)).unwrap(), Vec::<u64>::new());
    assert_eq!(idx.run_query(2, Some(40), Some(1_000_000)).unwrap(), vec![41, 44, 47]);
}

#[test]
fn query_absent_value_and_empty_index() {
    let idx = memory_index(&[1, 2, 3], ChunkSize::M1);
    assert_eq!(idx.run_query(4, None, None).unwrap(), Vec::<u64>::new());
    let empty = memory_index(&[], ChunkSize::M1);
    assert_eq!(empty.run_query(0, None, None).unwrap(), Vec::<u64>::new());
}

#[test]
fn random_values_match_linear_search() {
    let values = pseudo_random(300_000, 7, 1000);
    let idx = memory_index(&values, ChunkSize::M1);
    for v in [0u32, 1, 17, 999, 1000] {
        assert_eq!(idx.run_query(v, None, None).unwrap(), brute(&values, v, 0, u64::MAX));
    }
    assert_eq!(idx.run_query(17, Some(1000), Some(200_000)).unwrap(), brute(&values, 17, 1000, 200_000));
}

#[test]
fn chunk_size_does_not_change_results() {
    let mut values = pseudo_random((1 << 20) + 77, 3, 50);
    values[1 << 20] = 12345;
    let a = memory_index(&values, ChunkSize::M1);
    let b = memory_index(&values, ChunkSize::M2);
    for v in [0u32, 49, 12345] {
        assert_eq!(a.run_query(v, None, None).unwrap(), b.run_query(v, None, None).unwrap());
    }
}

#[test]
fn full_width_values() {
    let values = [u32::MAX, 0, 0x0001_0000, 0x0000_0001, u32::MAX];
    let idx = memory_index(&values, ChunkSize::M1);
    assert_eq!(idx.run_query(u32::MAX, None, None).unwrap(), vec![0, 4]);
    assert_eq!(idx.run_query(0x0001_0000, None, None).unwrap(), vec![2]);
    assert_eq!(idx.run_query(1, None, None).unwrap(), vec![3]);
}

#[test]
fn other_value_types() {
    let mut small = BitmapIndex::<OZBCBitmap, u8>::new(new_default_index_options::<u8>()).unwrap();
    small.push_values(&[3u8, 250, 3, 0]);
    assert_eq!(small.run_query(3, None, None).unwrap(), vec![0, 2]);

    let mut wide = BitmapIndex::<OZBCBitmap, u128>::new(BuildOptions::new(8, ChunkSize::M1)).unwrap();
    wide.push_values(&[u128::MAX, 5, u128::MAX - 1, 5]);
    assert_eq!(wide.run_query(5, None, None).unwrap(), vec![1, 3]);
    assert_eq!(wide.run_query(u128::MAX, None, None).unwrap(), vec![0]);
}

#[test]
fn default_options() {
    let o8 = new_default_index_options::<u8>();
    assert_eq!(o8.bit_block_size, 8);
    assert_eq!(o8.chunk_size, ChunkSize::M32);
    let o32 = new_default_index_options::<u32>();
    assert_eq!(o32.bit_block_size, 16);
    assert_eq!(o32.chunk_size, ChunkSize::M16);
}

#[test]
fn invalid_block_sizes_are_refused() {
    for b in [0usize, 1, 3, 17, 32] {
        let r = BitmapIndex::<OZBCBitmap, u32>::new(BuildOptions::new(b, ChunkSize::M1));
        assert!(matches!(r, Err(Error::ParametersError)));
    }
    assert!(BitmapIndex::<OZBCBitmap, u16>::new(BuildOptions::new(2, ChunkSize::M1)).is_ok());
    assert!(BitmapIndex::<OZBCBitmap, u8>::new(BuildOptions::new(16, ChunkSize::M1)).is_err());
}

#[test]
fn storage_mode_hands_back_full_chunks() {
    let c: u64 = 1 << 20;
    let mut idx = BitmapIndex::<OZBCBitmap, u32>::new_index(BuildOptions::new(16, ChunkSize::M1), true).unwrap();
    let values = pseudo_random((c + 10) as usize, 11, 20);
    let sealed = idx.push_values(&values);
    assert_eq!(sealed.len(), 1);
    assert_eq!(sealed[0].len(), 2 * 65536);
    // Only the chunk being filled is searched in storage mode.
    let v = values[(c + 3) as usize];
    assert_eq!(idx.run_query(v, None, None).unwrap(), brute(&values, v, c, u64::MAX));

    // The sealed chunk, stored and read back, answers like the memory index.
    let bytes = write_chunk(&sealed[0]).unwrap();
    let back: Vec<OZBCBitmap> = read_bitmaps(&bytes, sealed[0].len()).unwrap();
    assert_eq!(back, sealed[0]);
    let mem = memory_index(&values, ChunkSize::M1);
    let idxs = vec![v as usize & 0xffff, 65536 + (v as usize >> 16)];
    let mut from_disk: Vec<u64> = Vec::new();
    push_indexes(&back, &idxs, 0, c, 0, u64::MAX, &mut from_disk);
    let mut all = from_disk.clone();
    all.extend(idx.run_query(v, None, None).unwrap());
    assert_eq!(all, mem.run_query(v, None, None).unwrap());
}

#[test]
fn chunk_layout_and_sparse_offsets() {
    let mut a = OZBCBitmap::new();
    let b = OZBCBitmap::new();
    a.set(9);
    let bytes = write_chunk(&vec![a.clone(), b.clone()]).unwrap();
    // Three offsets, then 6 bytes for `a` and 4 for `b`.
    assert_eq!(&bytes[0..12], &[12, 0, 0, 0, 18, 0, 0, 0, 22, 0, 0, 0]);
    assert_eq!(bytes.len(), 22);
    assert_eq!(read_bitmap_offset(100, &bytes[4..12]), (118, 122));
    assert!(read_bitmaps::<OZBCBitmap>(&bytes[0..21], 2).is_err());
    let mut bad = bytes.clone();
    bad[4] = 30;
    assert!(matches!(read_bitmaps::<OZBCBitmap>(&bad, 2), Err(Error::BitmapError)));
}

#[test]
fn meta_data_round_trip() {
    let m = MetaData { num_values: 0x0102_0304_0506_0708, build_options: BuildOptions::new(16, ChunkSize::M8) };
    let bytes = m.to_bytes();
    assert_eq!(bytes.len(), 24);
    assert_eq!(&bytes[0..8], &[8, 7, 6, 5, 4, 3, 2, 1]);
    assert_eq!(&bytes[16..24], &[0, 0, 0x80, 0, 0, 0, 0, 0]);
    assert_eq!(MetaData::from_bytes(&bytes).unwrap(), m);
    let mut bad = bytes.clone();
    bad[16] = 1;
    assert!(matches!(MetaData::from_bytes(&bad), Err(Error::ParametersError)));
    assert!(MetaData::from_bytes(&bytes[0..23]).is_err());
}

#[test]
fn offset_table() {
    let buf = [1u8, 0, 0, 0, 0, 0, 0, 0, 0, 1, 0, 0, 0, 0, 0, 0, 9];
    assert_eq!(read_chunks_offsets(&buf), vec![1, 256]);
}

#[test]
fn flush_chunk_needs_storage_mode() {
    let idx = memory_index(&[1, 2, 3], ChunkSize::M1);
    assert!(matches!(idx.flush_chunk(), Err(Error::ParametersError)));
}

#[test]
fn persistence_through_stored_bytes() {
    // create, append, store, then read everything back and go on.
    let options = BuildOptions::new(16, ChunkSize::M1);
    let mut idx = BitmapIndex::<OZBCBitmap, u32>::new_index(options, true).unwrap();
    idx.push_values(&[1, 2, 3, 4, 5, 1, 1, 1]);
    let chunk = idx.flush_chunk().unwrap();
    let meta = MetaData { num_values: idx.num_values(), build_options: idx.build_options() }.to_bytes();

    let meta_back = MetaData::from_bytes(&meta).unwrap();
    assert_eq!(meta_back.num_values, 8);
    let tail: Vec<OZBCBitmap> = read_bitmaps(&chunk, 2 * 65536).unwrap();
    let mut reopened =
        BitmapIndex::<OZBCBitmap, u32>::resume(meta_back.build_options, meta_back.num_values, &tail).unwrap();
    assert_eq!(reopened.num_values(), 8);
    assert_eq!(reopened.run_query(1, None, None).unwrap(), vec![0, 5, 6, 7]);
    assert_eq!(reopened.run_query(1, None, None).unwrap(), idx.run_query(1, None, None).unwrap());
    reopened.push_value(1);
    reopened.push_value(9);
    assert_eq!(reopened.run_query(1, None, None).unwrap(), vec![0, 5, 6, 7, 8]);
    assert_eq!(reopened.run_query(9, None, None).unwrap(), vec![9]);
}

#[test]
fn resume_after_full_chunks() {
    let c: u64 = 1 << 20;
    let options = BuildOptions::new(16, ChunkSize::M1);
    let mut idx = BitmapIndex::<OZBCBitmap, u32>::new_index(options, true).unwrap();
    let values = pseudo_random((c + 5) as usize, 5, 100);
    let sealed = idx.push_values(&values);
    assert_eq!(sealed.len(), 1);
    let tail: Vec<OZBCBitmap> = read_bitmaps(&idx.flush_chunk().unwrap(), 2 * 65536).unwrap();
    let reopened = BitmapIndex::<OZBCBitmap, u32>::resume(options, c + 5, &tail).unwrap();
    for v in 0..100u32 {
        assert_eq!(reopened.run_query(v, None, None).unwrap(), brute(&values, v, c, u64::MAX));
    }
}

#[test]
fn resume_refuses_inconsistent_tail() {
    let options = BuildOptions::new(16, ChunkSize::M1);
    let mut idx = BitmapIndex::<OZBCBitmap, u32>::new_index(options, true).unwrap();
    idx.push_values(&[4, 4, 4]);
    let mut tail: Vec<OZBCBitmap> = read_bitmaps(&idx.flush_chunk().unwrap(), 2 * 65536).unwrap();
    // Position 1 now also claims low digit 5: two digits for one block.
    tail[5].set(1);
    let r = BitmapIndex::<OZBCBitmap, u32>::resume(options, 3, &tail);
    assert!(matches!(r, Err(Error::BitmapError)));
    // Fewer values than the stored tail holds.
    let tail2: Vec<OZBCBitmap> = read_bitmaps(&idx.flush_chunk().unwrap(), 2 * 65536).unwrap();
    assert!(matches!(BitmapIndex::<OZBCBitmap, u32>::resume(options, 2, &tail2), Err(Error::BitmapError)));
    // A tail of the wrong size, and block sizes that do not suit u32.
    assert!(matches!(BitmapIndex::<OZBCBitmap, u32>::resume(options, 0, &Vec::new()), Err(Error::BitmapError)));
    let bad = BuildOptions::new(5, ChunkSize::M1);
    assert!(matches!(BitmapIndex::<OZBCBitmap, u32>::resume(bad, 0, &tail2), Err(Error::ParametersError)));
}

#[test]
fn signed_values() {
    let mut idx = BitmapIndex::<OZBCBitmap, i32>::new(BuildOptions::new(16, ChunkSize::M1)).unwrap();
    idx.push_values(&[-1, 0, i32::MIN, -1, 65535, i32::MAX]);
    assert_eq!(idx.run_query(-1, None, None).unwrap(), vec![0, 3]);
    assert_eq!(idx.run_query(i32::MIN, None, None).unwrap(), vec![2]);
    assert_eq!(idx.run_query(65535, None, None).unwrap(), vec![4]);
    assert_eq!(idx.run_query(-65536, None, None).unwrap(), Vec::<u64>::new());

    let mut tiny = BitmapIndex::<OZBCBitmap, i8>::new(BuildOptions::new(4, ChunkSize::M1)).unwrap();
    tiny.push_values(&[-128, 127, -1, -128]);
    assert_eq!(tiny.run_query(-128, None, None).unwrap(), vec![0, 3]);

    let mut wide = BitmapIndex::<OZBCBitmap, i128>::new(BuildOptions::new(16, ChunkSize::M1)).unwrap();
    wide.push_values(&[i128::MIN, -5, i128::MAX, -5]);
    assert_eq!(wide.run_query(-5, None, None).unwrap(), vec![1, 3]);
    assert_eq!(wide.run_query(i128::MIN, None, None).unwrap(), vec![0]);
}

#[test]
fn memory_bitmaps_size_counts_serialized_bytes() {
    let idx = memory_index(&[], ChunkSize::M1);
    assert_eq!(idx.memory_bitmaps_size(), 4 * 2 * 65536);
    let idx = memory_index(&[7], ChunkSize::M1);
    // Two bitmaps gain one literal word each.
    assert_eq!(idx.memory_bitmaps_size(), 4 * 2 * 65536 + 4);
}

#[test]
fn chunks_a_query_reads() {
    let c: u64 = 1 << 20;
    assert_eq!(chunks_to_read(0, u64::MAX, 3 * c, c, 3), Some((0, 2)));
    assert_eq!(chunks_to_read(c + 5, 2 * c - 1, 3 * c, c, 3), Some((1, 1)));
    assert_eq!(chunks_to_read(c, 10 * c, 3 * c + 7, c, 3), Some((1, 2)));
    assert_eq!(chunks_to_read(5, 4, 3 * c, c, 3), None);
    assert_eq!(chunks_to_read(3 * c, u64::MAX, 3 * c, c, 3), None);
    assert_eq!(chunks_to_read(0, u64::MAX, 0, c, 0), None);
    assert_eq!(chunks_to_read(2 * c, u64::MAX, 3 * c, c, 2), None);
    assert_eq!(chunk_span(&vec![100, 250, 400], 0), (0, 100));
    assert_eq!(chunk_span(&vec![100, 250, 400], 2), (250, 400));
}

#[test]
fn chunk_reader_refuses_unusable_bitmaps() {
    // One bitmap whose body passes the count check but ends in a run word.
    let bytes = [8u8, 0, 0, 0, 14, 0, 0, 0, 128, 0, 0, 0, 1, 128];
    assert!(matches!(read_bitmaps::<OZBCBitmap>(&bytes, 1), Err(Error::BitmapError)));
    assert_eq!(chunk_start_in(&vec![100, 250, 400], 4, 0), 0);
    assert_eq!(chunk_start_in(&vec![100, 250, 400], 4, 6), 250);
}

#[test]
fn storage_push_values_hands_back_each_full_chunk() {
    let c: usize = 1 << 20;
    let mut idx = BitmapIndex::<OZBCBitmap, u32>::new_index(BuildOptions::new(16, ChunkSize::M1), true).unwrap();
    let values = pseudo_random(2 * c + 3, 9, 7);
    let sealed = idx.push_values(&values);
    assert_eq!(sealed.len(), 2);
    let idxs = vec![values[c + 1] as usize & 0xffff, 65536 + (values[c + 1] as usize >> 16)];
    let mut hits: Vec<u64> = Vec::new();
    push_indexes(&sealed[1], &idxs, 1, c as u64, 0, u64::MAX, &mut hits);
    assert_eq!(hits, brute(&values[..2 * c], values[c + 1], c as u64, u64::MAX));
}
