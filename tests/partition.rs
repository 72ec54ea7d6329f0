use decision_tree_builder::split_data;

#[test]
fn test_middle() {
    let mut data = [9, 1, 4, 8, 3, 7, 3, 1];
    let split = split_data(&mut data, |v| v < &5);
    assert_eq!(split, 5);
    assert_eq!(data, [1, 1, 4, 3, 3, 7, 8, 9]);
}

#[test]
fn test_start() {
    let mut data = [9, 1, 4, 8, 3, 7, 3, 1];
    let split = split_data(&mut data, |v| v < &2);
    assert_eq!(split, 2);
    assert_eq!(data, [1, 1, 4, 8, 3, 7, 3, 9]);
}

#[test]
fn test_end() {
    let mut data = [9, 1, 4, 8, 3, 7, 3, 1];
    let split = split_data(&mut data, |v| v < &9);
    assert_eq!(split, 7);
    assert_eq!(data, [1, 1, 4, 8, 3, 7, 3, 9]);
}

#[test]
fn middle() {
    let mut data = [9, 1, 4, 8, 3, 7, 3, 1];
    let split = split_data(&mut data, |v| v < &5);
    assert_eq!(split, 5);
    assert_eq!(data, [1, 1, 4, 3, 3, 7, 8, 9]);
}

#[test]
fn start() {
    let mut data = [9, 1, 4, 8, 3, 7, 3, 1];
    let split = split_data(&mut data, |v| v < &2);
    assert_eq!(split, 2);
    assert_eq!(data, [1, 1, 4, 8, 3, 7, 3, 9]);
}

#[test]
fn end() {
    let mut data = [9, 1, 4, 8, 3, 7, 3, 1];
    let split = split_data(&mut data, |v| v < &9);
    assert_eq!(split, 7);
    assert_eq!(data, [1, 1, 4, 8, 3, 7, 3, 9]);
}

#[test]
fn split_of_empty_slice_is_zero() {
    let mut data: [i32; 0] = [];
    assert_eq!(split_data(&mut data, |v| *v > 0), 0);
}

#[test]
fn split_when_all_satisfy_is_length() {
    let mut data = [1, 1, 2];
    assert_eq!(split_data(&mut data, |v| *v < 5), 3);
    let mut single = [4];
    assert_eq!(split_data(&mut single, |v| *v < 5), 1);
}

#[test]
fn split_when_none_satisfy_is_zero() {
    let mut data = [7, 8, 9];
    assert_eq!(split_data(&mut data, |v| *v < 5), 0);
    assert_eq!(data, [7, 8, 9]);
}

#[test]
fn split_groups_every_element() {
    let mut data = [5, 2, 8, 1, 9, 3, 7, 4, 6, 0];
    let k = split_data(&mut data, |v| v % 2 == 0);
    assert_eq!(k, 5);
    assert!(data[..k].iter().all(|v| v % 2 == 0));
    assert!(data[k..].iter().all(|v| v % 2 != 0));
    let mut sorted = data;
    sorted.sort();
    assert_eq!(sorted, [0, 1, 2, 3, 4, 5, 6, 7, 8, 9]);
}
