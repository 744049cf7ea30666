use minimage::{reduce_pairs, reduce_pairs_packed, Error};

#[test]
fn drops_self_and_duplicate_images() {
    let pairs = [[0, 1], [1, 0], [0, 0], [0, 1], [2, 2], [2, 3]];
    let mut out = Vec::new();
    let n = reduce_pairs(&pairs, &mut out).unwrap();
    assert_eq!(n, 3);
    assert_eq!(out, vec![[0, 1], [1, 0], [2, 3]]);
}

#[test]
fn packed_matches_rows() {
    let packed = [0, 1, 0, 0, 0, 1, 2, 3];
    let mut out = [0; 8];
    let mut n = 99;
    reduce_pairs_packed(&packed, &mut out, &mut n).unwrap();
    assert_eq!(n, 2);
    assert_eq!(&out[..4], &[0, 1, 2, 3]);
}

#[test]
fn readme_example_keeps_one_pair() {
    let pairs = [[0, 1], [0, 0], [0, 1]];
    let mut kept = Vec::new();
    reduce_pairs(&pairs, &mut kept).unwrap();
    assert_eq!(kept, vec![[0, 1]]);
}

#[test]
fn empty_input_clears_out() {
    let pairs: [[i32; 2]; 0] = [];
    let mut out = vec![[7, 8], [9, 10]];
    assert_eq!(reduce_pairs(&pairs, &mut out), Ok(0));
    assert!(out.is_empty());
}

#[test]
fn previous_contents_of_out_are_replaced() {
    let pairs = [[3, 4]];
    let mut out = vec![[1, 2], [5, 6]];
    assert_eq!(reduce_pairs(&pairs, &mut out), Ok(1));
    assert_eq!(out, vec![[3, 4]]);
}

#[test]
fn only_self_images_leave_nothing() {
    let pairs = [[5, 5], [-1, -1], [0, 0]];
    let mut out = Vec::new();
    assert_eq!(reduce_pairs(&pairs, &mut out), Ok(0));
    assert!(out.is_empty());
}

#[test]
fn rows_come_out_in_lexicographic_order() {
    let pairs = [[3, -2], [-4, 9], [3, -7], [0, 1], [-4, 2], [3, -2], [i32::MAX, i32::MIN]];
    let mut out = Vec::new();
    assert_eq!(reduce_pairs(&pairs, &mut out), Ok(6));
    assert_eq!(
        out,
        vec![[-4, 2], [-4, 9], [0, 1], [3, -7], [3, -2], [i32::MAX, i32::MIN]]
    );
}

#[test]
fn both_orders_of_a_pair_are_kept() {
    let pairs = [[2, 1], [1, 2], [2, 1]];
    let mut out = Vec::new();
    assert_eq!(reduce_pairs(&pairs, &mut out), Ok(2));
    assert_eq!(out, vec![[1, 2], [2, 1]]);
}

#[test]
fn reducing_twice_changes_nothing() {
    let pairs = [[9, 1], [1, 9], [4, 4], [9, 1], [0, 3], [3, 0], [0, 3]];
    let mut once = Vec::new();
    reduce_pairs(&pairs, &mut once).unwrap();
    let mut twice = Vec::new();
    let n = reduce_pairs(&once, &mut twice).unwrap();
    assert_eq!(n, once.len());
    assert_eq!(twice, once);
}

#[test]
fn order_and_repeats_of_the_input_do_not_matter() {
    let a = [[1, 2], [3, 4], [5, 6], [3, 3]];
    let b = [[5, 6], [5, 6], [7, 7], [3, 4], [1, 2], [1, 2]];
    let mut ra = Vec::new();
    let mut rb = Vec::new();
    reduce_pairs(&a, &mut ra).unwrap();
    reduce_pairs(&b, &mut rb).unwrap();
    assert_eq!(ra, rb);
}

#[test]
fn long_input_is_sorted_and_unique() {
    let mut pairs = Vec::new();
    for k in 0..500i32 {
        pairs.push([(k * 37) % 23, (k * 11) % 19]);
    }
    let mut out = Vec::new();
    let n = reduce_pairs(&pairs, &mut out).unwrap();
    assert_eq!(n, out.len());
    let mut expected: Vec<[i32; 2]> = pairs.iter().copied().filter(|p| p[0] != p[1]).collect();
    expected.sort_unstable();
    expected.dedup();
    assert_eq!(out, expected);
}

#[test]
fn packed_agrees_with_row_reduction() {
    let rows = [[4, 1], [1, 4], [2, 2], [4, 1], [0, -3]];
    let packed: Vec<i32> = rows.iter().flat_map(|r| [r[0], r[1]]).collect();
    let mut from_rows = Vec::new();
    reduce_pairs(&rows, &mut from_rows).unwrap();
    let mut out = vec![0; packed.len()];
    let mut n = 0;
    reduce_pairs_packed(&packed, &mut out, &mut n).unwrap();
    assert_eq!(n, from_rows.len());
    let flat: Vec<i32> = from_rows.iter().flat_map(|r| [r[0], r[1]]).collect();
    assert_eq!(&out[..2 * n], &flat[..]);
}

#[test]
fn packed_leaves_the_tail_of_out_alone() {
    let packed = [1, 2, 1, 2, 3, 3];
    let mut out = [-9; 8];
    let mut n = 0;
    assert_eq!(reduce_pairs_packed(&packed, &mut out, &mut n), Ok(()));
    assert_eq!(n, 1);
    assert_eq!(out, [1, 2, -9, -9, -9, -9, -9, -9]);
}

#[test]
fn packed_empty_is_zero() {
    let packed: [i32; 0] = [];
    let mut out: [i32; 0] = [];
    let mut n = 5;
    assert_eq!(reduce_pairs_packed(&packed, &mut out, &mut n), Ok(()));
    assert_eq!(n, 0);
}

#[test]
fn packed_odd_length_is_buffer_size() {
    let packed = [0, 1, 2];
    let mut out = [4; 4];
    let mut n = 7;
    assert_eq!(reduce_pairs_packed(&packed, &mut out, &mut n), Err(Error::BufferSize));
    assert_eq!(n, 7);
    assert_eq!(out, [4; 4]);
}

#[test]
fn packed_short_out_is_buffer_size() {
    let packed = [0, 1, 2, 3];
    let mut out = [4; 3];
    let mut n = 7;
    assert_eq!(reduce_pairs_packed(&packed, &mut out, &mut n), Err(Error::BufferSize));
    assert_eq!(n, 7);
    assert_eq!(out, [4; 3]);
}

#[test]
fn error_messages() {
    assert_eq!(Error::BadBox.to_string(), "singular or non-positive cell");
    assert_eq!(
        Error::BufferSize.to_string(),
        "out buffer length must match the pair count"
    );
    assert_eq!(Error::Empty.to_string(), "no pairs");
}
