use bar::io::ByteWindow;

#[test]
fn a_window_reads_at_offsets_without_moving_its_cursor() {
    let data = [10u8, 20, 30, 40];
    let mut window = ByteWindow::new(&data);
    assert_eq!(window.len(), 4);
    assert_eq!(window.byte().unwrap(), 10);
    assert_eq!(window.bytes_at(1, 3).unwrap(), vec![20, 30, 40]);
    assert_eq!(window.byte_at(3).unwrap(), 40);
    assert_eq!(window.bytes_at(4, 0).unwrap(), Vec::<u8>::new());
    assert_eq!(window.byte().unwrap(), 20);
    assert_eq!(window.byte().unwrap(), 30);
    assert_eq!(window.byte().unwrap(), 40);
}

#[test]
fn reading_past_the_end_of_a_window_is_an_error() {
    let data = [10u8, 20];
    let mut window = ByteWindow::new(&data);
    assert_eq!(window.byte_at(2).unwrap_err().kind(), std::io::ErrorKind::UnexpectedEof);
    assert!(window.byte_at(u64::MAX).is_err());
    assert!(window.bytes_at(1, 2).is_err());
    assert!(window.bytes_at(3, 0).is_err());
    assert!(window.bytes_at(u64::MAX, u64::MAX).is_err());
    assert!(window.bytes_at(0, u64::MAX).is_err());
    assert_eq!(window.byte().unwrap(), 10);
    assert_eq!(window.byte().unwrap(), 20);
    assert_eq!(window.byte().unwrap_err().kind(), std::io::ErrorKind::UnexpectedEof);
    assert!(window.byte().is_err());
    assert_eq!(window.bytes_at(0, 2).unwrap(), vec![10, 20]);
    let mut empty = ByteWindow::new(&[]);
    assert!(empty.byte().is_err());
    assert_eq!(empty.len(), 0);
}
