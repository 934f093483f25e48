use elfshaker::repo::algo::thread_groups;
use elfshaker::repo::partition_by_u64;
use elfshaker::sort::sort_bytes;

#[test]
fn partition_by_u64_simple_works() {
    let partitions = partition_by_u64(&[1, 2, 3, 4, 5, 6, 7, 8, 9], 2, |&x| x as u64);
    assert_eq!(2, partitions.len());
    assert_eq!(&[1, 2, 3, 4, 5, 6], partitions[0]);
    assert_eq!(&[7, 8, 9], partitions[1]);
}

#[test]
fn partition_by_u64_few_works() {
    let partitions = partition_by_u64(&[1, 2, 999], 4, |&x| x as u64);
    assert_eq!(2, partitions.len());
    assert_eq!(&[1, 2], partitions[0]);
    assert_eq!(&[999], partitions[1]);
}

#[test]
fn partition_by_u64_small_values_works() {
    let partitions = partition_by_u64(&[1, 1, 1], 4, |&x| x as u64);
    assert_eq!(3, partitions.len());
    assert_eq!(&[1], partitions[0]);
    assert_eq!(&[1], partitions[1]);
    assert_eq!(&[1], partitions[2]);
}

#[test]
fn partitions_cover_in_order() {
    let values: Vec<u64> = (0..100).map(|x| x * 7 % 13).collect();
    for n in 1..10 {
        let partitions = partition_by_u64(&values, n, |&x| x);
        assert_eq!(values, partitions.concat());
        assert!(partitions.len() <= n as usize);
    }
}

#[test]
fn partition_of_nothing_is_empty() {
    let partitions = partition_by_u64(&[], 4, |x: &u64| *x);
    assert!(partitions.is_empty());
}

#[test]
fn bytes_are_sorted_by_value() {
    let keys = vec![b"b".to_vec(), b"".to_vec(), b"ab".to_vec(), b"a".to_vec(), b"b".to_vec()];
    assert_eq!(vec![1, 3, 2, 0, 4], sort_bytes(&keys));
}

#[test]
fn thread_groups_cover_all_items() {
    let tasks = (0..10000000u64).collect::<Vec<_>>();
    let groups = thread_groups(128, tasks.len());
    assert_eq!(128, groups.len());
    assert_eq!((0, 78125), groups[0]);
    let result = groups
        .iter()
        .flat_map(|&(from, to)| tasks[from..to].iter().map(|&x| x * 2))
        .collect::<Vec<_>>();
    let expected = tasks.iter().map(|x| x * 2).collect::<Vec<_>>();
    assert!(expected.eq(&result));
}

#[test]
fn more_threads_than_items() {
    assert_eq!(vec![(0, 1), (1, 2), (2, 3)], thread_groups(8, 3));
    assert!(thread_groups(8, 0).is_empty());
    assert_eq!(vec![(0, 3), (3, 6), (6, 7)], thread_groups(2, 7));
}
