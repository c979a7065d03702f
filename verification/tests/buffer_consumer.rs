use mini_lsm::buffer_consumer::BufferConsumer;

#[test]
fn consume() {
    let bytes: [u8; 10] = [1, 2, 2, 3, 3, 3, 4, 4, 4, 4];
    let mut bc = BufferConsumer::new(&bytes);
    assert_eq!(bc.remaining(), 10);

    let result = bc.consume(1);
    assert_eq!([1], result);
    assert_eq!(bc.remaining(), 9);

    let result = bc.consume(2);
    assert_eq!([2, 2], result);
    assert_eq!(bc.remaining(), 7);

    let result = bc.consume(3);
    assert_eq!([3, 3, 3], result);
    assert_eq!(bc.remaining(), 4);

    let result = bc.consume(4);
    assert_eq!([4, 4, 4, 4], result);
    assert_eq!(bc.remaining(), 0);

    assert!(bc.done());

    let result: &[u8] = bc.consume(5);
    assert!(result.is_empty());
}

#[test]
fn consume_more_than_remains() {
    let bytes: [u8; 3] = [7, 8, 9];
    let mut bc = BufferConsumer::new(&bytes);
    assert!(!bc.done());
    let result = bc.consume(0);
    assert!(result.is_empty());
    assert_eq!(bc.remaining(), 3);
    let result = bc.consume(100);
    assert_eq!([7, 8, 9], result);
    assert_eq!(bc.remaining(), 0);
    assert!(bc.done());
}

#[test]
fn consume_empty_buffer() {
    let bytes: [u8; 0] = [];
    let mut bc = BufferConsumer::new(&bytes);
    assert!(bc.done());
    assert_eq!(bc.remaining(), 0);
    assert!(bc.consume(1).is_empty());
    assert!(bc.consume(0).is_empty());
}
