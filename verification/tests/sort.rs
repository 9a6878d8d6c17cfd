use human_sort::sort;

#[test]
fn test_sort() {
    let mut v = ["file10.txt", "file2.txt", "file1.txt"];
    sort(&mut v);
    assert_eq!(v, ["file1.txt", "file2.txt", "file10.txt"]);

    let mut v = ["file10.txt".to_string(), "file2.txt".to_string(), "file1.txt".to_string()];
    sort(&mut v);
    assert_eq!(v, ["file1.txt", "file2.txt", "file10.txt"]);
}

#[test]
fn sort_leaves_what_is_sorted_as_it_is() {
    let mut v = ["file1.txt", "file2.txt", "file10.txt"];
    sort(&mut v);
    assert_eq!(v, ["file1.txt", "file2.txt", "file10.txt"]);

    let mut v = vec!["", "1", "01", "001", "2", "a", "a7", "a007", "b"];
    let before = v.clone();
    sort(&mut v);
    assert_eq!(v, before);
    sort(&mut v);
    assert_eq!(v, before);
}

#[test]
fn sort_keeps_the_order_of_texts_that_compare_equal() {
    let mut v = ["b", "a007", "a7", "a07", "a"];
    sort(&mut v);
    assert_eq!(v, ["a", "a007", "a7", "a07", "b"]);

    let mut v = ["x01", "x1", "x001", "x0"];
    sort(&mut v);
    assert_eq!(v, ["x0", "x01", "x1", "x001"]);
}

#[test]
fn sort_of_nothing_and_of_one() {
    let mut v: [&str; 0] = [];
    sort(&mut v);
    assert_eq!(v.len(), 0);

    let mut v = ["only"];
    sort(&mut v);
    assert_eq!(v, ["only"]);
}

#[test]
fn sort_puts_numbers_in_order_of_value() {
    let mut v = vec!["v10", "v9", "v100", "v1", "v", "v20", "u99"];
    sort(&mut v);
    assert_eq!(v, ["u99", "v", "v1", "v9", "v10", "v20", "v100"]);
}

#[test]
fn sort_takes_a_part_of_a_vector() {
    let mut v = vec!["c3".to_string(), "c20".to_string(), "c1".to_string(), "a".to_string()];
    sort(&mut v[..3]);
    assert_eq!(v, ["c1", "c3", "c20", "a"]);
}
