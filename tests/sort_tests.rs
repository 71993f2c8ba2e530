use graph_algos::sort;
use rand::Rng;

#[test]
fn test_insertion_sort() {
    let mut array = vec![2, 3, -1, 7, 6, 9, 5];
    sort::insertion_sort(&mut array);
    assert_eq!(array, vec![-1, 2, 3, 5, 6, 7, 9])
}

#[test]
fn test_quicksort() {
    let mut array = Vec::new();
    let mut rng = rand::thread_rng();
    for _ in 0..1000 {
        array.push(rng.gen_range(0..1000))
    }
    let mut copy = array.clone();
    copy.sort();
    assert_ne!(array, copy);
    let len = array.len();
    sort::quicksort(&mut array, 0, len - 1);
    assert_eq!(array, copy)
}

#[test]
fn test_selection() {
    let mut array = vec![2, 3, -1, 7, 6, 9, 5];
    let len = array.len();
    sort::rand_select(&mut array, 0, len - 1, 3);
    assert_eq!(sort::rand_select(&mut array, 0, len - 1, 3), 3)
}

#[test]
fn insertion_sort_empty_and_duplicates() {
    let mut empty: Vec<i32> = Vec::new();
    sort::insertion_sort(&mut empty);
    assert!(empty.is_empty());
    let mut dup = vec![4, 1, 4, 1, 0];
    sort::insertion_sort(&mut dup);
    assert_eq!(dup, vec![0, 1, 1, 4, 4]);
}

#[test]
fn partition_around_last_entry() {
    let mut v = vec![9, 1, 8, 2, 5];
    let r = sort::partition(&mut v, 0, 4);
    assert_eq!(r, 2);
    assert_eq!(v[2], 5);
    assert!(v[..2].iter().all(|&x| x <= 5));
    assert!(v[3..].iter().all(|&x| x > 5));
}

#[test]
fn quicksort_sub_range_only() {
    let mut v = vec![5, 4, 3, 2, 1, 0];
    sort::quicksort(&mut v, 1, 4);
    assert_eq!(v, vec![5, 1, 2, 3, 4, 0]);
}

#[test]
fn rand_select_each_rank() {
    let base = vec![10, -3, 7, 7, 0];
    let mut sorted = base.clone();
    sorted.sort();
    for i in 1..=base.len() {
        let mut v = base.clone();
        assert_eq!(sort::rand_select(&mut v, 0, 4, i), sorted[i - 1]);
    }
}
