use bitrush_index::{Bitmap, BitmapIndex, BuildOptions, ChunkSize, OZBCBitmap};
use rand::Rng;

fn create_random_number(n: usize) -> Vec<u32> {
    let mut values = Vec::new();
    let mut rng = rand::thread_rng();
    for _i in 0..n {
        let val: u32 = rng.gen::<u32>();
        values.push(val);
    }
    values
}

#[test]
fn memory_mode() {
    let n = 2 * 1000 * 1000;

    let build_options = BuildOptions::new(16, ChunkSize::M1);
    let b_index_r = BitmapIndex::<OZBCBitmap, u32>::new(build_options);
    assert!(b_index_r.is_ok());

    let mut b_index: BitmapIndex<OZBCBitmap, u32> = b_index_r.unwrap();
    let mut values: Vec<u32> = create_random_number(n);

    // In memory mode no chunk is handed back for storing.
    let result_insert = b_index.push_values(&values);
    assert!(result_insert.is_empty());

    let mut rng = rand::thread_rng();
    let random_index: usize = rng.gen::<usize>() % values.len();
    let val_to_find = values[random_index];
    values.push(val_to_find);
    let result_insert = b_index.push_value(val_to_find);
    assert!(result_insert.is_none());

    let linear_search_result: Vec<u64> = values
        .iter()
        .enumerate()
        .filter(|(_i, v)| **v == val_to_find)
        .map(|(i, _v)| i as u64)
        .collect();

    let values_indexes: Vec<u64> = b_index.run_query(val_to_find, None, None).unwrap();

    assert_eq!(linear_search_result.len(), values_indexes.len());

    for i in 0..linear_search_result.len() {
        assert_eq!(linear_search_result[i], values_indexes[i]);
    }
}

#[test]
fn set_advanced() {
    let mut b0 = OZBCBitmap::new();
    let mut b1 = b0.clone();

    let mut rng = rand::thread_rng();
    let n = 100000;
    let mut last_val_ok: u32 = rng.gen::<u32>();
    b0.set(last_val_ok);
    b1.set(last_val_ok);

    for _i in 1..n {
        let val = rng.gen::<u32>();
        b0.set(val);
        if val > last_val_ok {
            b1.set(val);
            last_val_ok = val;
        }
    }

    assert_eq!(b0, b1);
}

#[test]
fn write_read_advanced() {
    let mut b0 = OZBCBitmap::new();

    let mut rng = rand::thread_rng();
    let n = 100000;
    let mut last_val_ok: u32 = rng.gen::<u32>();
    b0.set(last_val_ok);

    for _i in 1..n {
        let val = rng.gen::<u32>();
        if val > last_val_ok {
            b0.set(val);
            last_val_ok = val;
        }
    }

    let b1 = b0.clone();
    let mut buf: Vec<u8> = vec![0; b0.size()];
    let r_write = b0.write_to_buffer(&mut buf);
    assert!(r_write.is_ok());
    assert_eq!(r_write.unwrap(), buf.len());

    b0 = OZBCBitmap::new();
    let r_read = b0.read_from_buffer(&buf, true);
    assert!(r_read.is_ok());
    assert_eq!(b0, b1);
}
