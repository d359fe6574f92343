use knights_tour::ports::ports_to_scan;
use knights_tour::ports::sort_ports;

#[test]
fn schedule_strides_by_thread_count() {
    assert_eq!(ports_to_scan(0, 10, 4), vec![1, 5, 9]);
    assert_eq!(ports_to_scan(1, 10, 4), vec![2, 6]);
    assert_eq!(ports_to_scan(2, 10, 4), vec![3, 7]);
    assert_eq!(ports_to_scan(3, 10, 4), vec![4, 8]);
}

#[test]
fn schedule_single_port() {
    assert_eq!(ports_to_scan(0, 3, 5), vec![1]);
}

#[test]
fn schedule_stride_one_walks_to_the_end() {
    assert_eq!(ports_to_scan(4, 9, 1), vec![5, 6, 7, 8]);
}

#[test]
fn sort_orders_ports() {
    let mut v = vec![80u16, 22, 443, 22, 8080, 1];
    sort_ports(&mut v);
    assert_eq!(v, vec![1, 22, 22, 80, 443, 8080]);

    let mut empty: Vec<u16> = vec![];
    sort_ports(&mut empty);
    assert!(empty.is_empty());
}
