use circular_buffer::CircularBuffer;

#[test]
fn test_len() {
    let l = CircularBuffer::from_storage(vec!['a', 'b', 'c', 'd']).unwrap();
    assert_eq!(l.len(), 4);

    let l = CircularBuffer::from_storage(vec!['a', 'b']).unwrap();
    assert_eq!(l.len(), 2);

    let l = CircularBuffer::from_storage(vec!['a']).unwrap();
    assert_eq!(l.len(), 1);
}

#[test]
#[should_panic]
fn test_len_empty() {
    let _ = CircularBuffer::from_storage(Vec::<char>::new()).unwrap();
}

#[test]
fn test_queue() {
    let mut l = CircularBuffer::from_storage(vec!['a', 'b', 'c', 'd']).unwrap();
    assert_eq!(l.first_index(), 0);
    assert_eq!(*l.storage(), vec!['a', 'b', 'c', 'd']);

    l.queue('9');
    assert_eq!(l.first_index(), 3);
    assert_eq!(*l.storage(), vec!['a', 'b', 'c', '9']);

    l.queue('8');
    assert_eq!(l.first_index(), 2);
    assert_eq!(*l.storage(), vec!['a', 'b', '8', '9']);

    l.queue('7');
    assert_eq!(l.first_index(), 1);
    assert_eq!(*l.storage(), vec!['a', '7', '8', '9']);

    l.queue('6');
    assert_eq!(l.first_index(), 0);
    assert_eq!(*l.storage(), vec!['6', '7', '8', '9']);

    l.queue('5');
    assert_eq!(l.first_index(), 3);
    assert_eq!(*l.storage(), vec!['6', '7', '8', '5']);

    l.queue('4');
    assert_eq!(l.first_index(), 2);
    assert_eq!(*l.storage(), vec!['6', '7', '4', '5']);
}

#[test]
fn test_set_first() {
    let mut l = CircularBuffer::from_storage(vec!['a', 'b', 'c', 'd']).unwrap();
    l.set_first(0);
    assert_eq!(l.first_index(), 0);

    l.set_first(1);
    assert_eq!(l.first_index(), 1);

    l.set_first(1);
    assert_eq!(l.first_index(), 2);

    l.set_first(1);
    assert_eq!(l.first_index(), 3);

    l.set_first(1);
    assert_eq!(l.first_index(), 0);

    l.set_first(2);
    assert_eq!(l.first_index(), 2);

    l.set_first(4);
    assert_eq!(l.first_index(), 2);
}

#[test]
fn test_get() {
    let mut l = CircularBuffer::from_storage(vec!['a', 'b', 'c', 'd']).unwrap();
    l.set_first(0);
    assert_eq!(l.first_index(), 0);
    assert_eq!(*l.get(0), 'a');
    assert_eq!(*l.get(1), 'b');
    assert_eq!(*l.get(2), 'c');
    assert_eq!(*l.get(3), 'd');

    let mut l = CircularBuffer::from_storage(vec!['a', 'b', 'c', 'd']).unwrap();
    l.set_first(1);
    assert_eq!(l.first_index(), 1);
    assert_eq!(*l.get(0), 'b');
    assert_eq!(*l.get(1), 'c');
    assert_eq!(*l.get(2), 'd');
    assert_eq!(*l.get(3), 'a');

    let mut l = CircularBuffer::from_storage(vec!['a', 'b', 'c', 'd']).unwrap();
    l.set_first(2);
    assert_eq!(l.first_index(), 2);
    assert_eq!(*l.get(0), 'c');
    assert_eq!(*l.get(1), 'd');
    assert_eq!(*l.get(2), 'a');
    assert_eq!(*l.get(3), 'b');

    let mut l = CircularBuffer::from_storage(vec!['a', 'b', 'c', 'd']).unwrap();
    l.set_first(3);
    assert_eq!(l.first_index(), 3);
    assert_eq!(*l.get(0), 'd');
    assert_eq!(*l.get(1), 'a');
    assert_eq!(*l.get(2), 'b');
    assert_eq!(*l.get(3), 'c');

    let mut l = CircularBuffer::from_storage(vec!['a', 'b', 'c', 'd']).unwrap();
    l.set_first(4);
    assert_eq!(l.first_index(), 0);
    assert_eq!(*l.get(0), 'a');
    assert_eq!(*l.get(1), 'b');
    assert_eq!(*l.get(2), 'c');
    assert_eq!(*l.get(3), 'd');

    let mut l = CircularBuffer::from_storage(vec!['a', 'b', 'c', 'd']).unwrap();
    l.set_first(5);
    assert_eq!(l.first_index(), 1);
    assert_eq!(*l.get(0), 'b');
    assert_eq!(*l.get(1), 'c');
    assert_eq!(*l.get(2), 'd');
    assert_eq!(*l.get(3), 'a');
}

#[test]
fn test_get_mut() {
    let mut l = CircularBuffer::from_storage(vec!['a', 'b', 'c', 'd']).unwrap();
    l.set_first(0);
    assert_eq!(l.first_index(), 0);
    assert_eq!(*l.get_mut(0), 'a');
    assert_eq!(*l.get_mut(1), 'b');
    assert_eq!(*l.get_mut(2), 'c');
    assert_eq!(*l.get_mut(3), 'd');

    let mut l = CircularBuffer::from_storage(vec!['a', 'b', 'c', 'd']).unwrap();
    l.set_first(1);
    assert_eq!(l.first_index(), 1);
    assert_eq!(*l.get_mut(0), 'b');
    assert_eq!(*l.get_mut(1), 'c');
    assert_eq!(*l.get_mut(2), 'd');
    assert_eq!(*l.get_mut(3), 'a');

    let mut l = CircularBuffer::from_storage(vec!['a', 'b', 'c', 'd']).unwrap();
    l.set_first(2);
    assert_eq!(l.first_index(), 2);
    assert_eq!(*l.get_mut(0), 'c');
    assert_eq!(*l.get_mut(1), 'd');
    assert_eq!(*l.get_mut(2), 'a');
    assert_eq!(*l.get_mut(3), 'b');

    let mut l = CircularBuffer::from_storage(vec!['a', 'b', 'c', 'd']).unwrap();
    l.set_first(3);
    assert_eq!(l.first_index(), 3);
    assert_eq!(*l.get_mut(0), 'd');
    assert_eq!(*l.get_mut(1), 'a');
    assert_eq!(*l.get_mut(2), 'b');
    assert_eq!(*l.get_mut(3), 'c');

    let mut l = CircularBuffer::from_storage(vec!['a', 'b', 'c', 'd']).unwrap();
    l.set_first(4);
    assert_eq!(l.first_index(), 0);
    assert_eq!(*l.get_mut(0), 'a');
    assert_eq!(*l.get_mut(1), 'b');
    assert_eq!(*l.get_mut(2), 'c');
    assert_eq!(*l.get_mut(3), 'd');

    let mut l = CircularBuffer::from_storage(vec!['a', 'b', 'c', 'd']).unwrap();
    l.set_first(5);
    assert_eq!(l.first_index(), 1);
    assert_eq!(*l.get_mut(0), 'b');
    assert_eq!(*l.get_mut(1), 'c');
    assert_eq!(*l.get_mut(2), 'd');
    assert_eq!(*l.get_mut(3), 'a');
}

#[test]
fn test_swap_at() {
    let mut l = CircularBuffer::from_storage(vec!['a', 'b', 'c', 'd']).unwrap();
    assert_eq!(*l.storage(), vec!['a', 'b', 'c', 'd']);

    l.swap_at(0, '0');
    assert_eq!(*l.storage(), vec!['0', 'b', 'c', 'd']);

    l.swap_at(1, '1');
    assert_eq!(*l.storage(), vec!['0', '1', 'c', 'd']);

    l.swap_at(2, '2');
    assert_eq!(*l.storage(), vec!['0', '1', '2', 'd']);

    l.swap_at(3, '3');
    assert_eq!(*l.storage(), vec!['0', '1', '2', '3']);

    l.swap_at(4, '4');
    assert_eq!(*l.storage(), vec!['4', '1', '2', '3']);

    l.swap_at(5, '5');
    assert_eq!(*l.storage(), vec!['4', '5', '2', '3']);

    let mut l = CircularBuffer::from_storage(vec!['a', 'b', 'c', 'd']).unwrap();
    l.set_first(1);
    assert_eq!(*l.storage(), vec!['a', 'b', 'c', 'd']);

    l.swap_at(0, '0');
    assert_eq!(*l.storage(), vec!['a', '0', 'c', 'd']);

    l.swap_at(1, '1');
    assert_eq!(*l.storage(), vec!['a', '0', '1', 'd']);

    l.swap_at(2, '2');
    assert_eq!(*l.storage(), vec!['a', '0', '1', '2']);

    l.swap_at(3, '3');
    assert_eq!(*l.storage(), vec!['3', '0', '1', '2']);

    l.swap_at(4, '4');
    assert_eq!(*l.storage(), vec!['3', '4', '1', '2']);

    l.swap_at(5, '5');
    assert_eq!(*l.storage(), vec!['3', '4', '5', '2']);
}

#[test]
fn test_swap_internal() {
    let mut l = CircularBuffer::from_storage(vec!['a', 'b', 'c', 'd']).unwrap();
    assert_eq!(*l.storage(), vec!['a', 'b', 'c', 'd']);

    l.swap_internal(0, 3);
    assert_eq!(*l.storage(), vec!['d', 'b', 'c', 'a']);

    l.swap_internal(3, 0);
    assert_eq!(*l.storage(), vec!['a', 'b', 'c', 'd']);

    l.swap_internal(1, 2);
    assert_eq!(*l.storage(), vec!['a', 'c', 'b', 'd']);

    l.swap_internal(2, 1);
    assert_eq!(*l.storage(), vec!['a', 'b', 'c', 'd']);

    l.swap_internal(0, 5);
    assert_eq!(*l.storage(), vec!['b', 'a', 'c', 'd']);

    l.swap_internal(5, 0);
    assert_eq!(*l.storage(), vec!['a', 'b', 'c', 'd']);
}

#[test]
fn test_swap() {
    let mut l = CircularBuffer::from_storage(vec!['d', 'c', 'b', 'a']).unwrap();
    assert_eq!(*l.storage(), vec!['d', 'c', 'b', 'a']);

    l.swap('0');
    assert_eq!(*l.storage(), vec!['0', 'c', 'b', 'a']);

    l.set_first(1);
    l.swap('1');
    assert_eq!(*l.storage(), vec!['0', '1', 'b', 'a']);

    l.set_first(1);
    l.swap('2');
    assert_eq!(*l.storage(), vec!['0', '1', '2', 'a']);

    l.set_first(1);
    l.swap('3');
    assert_eq!(*l.storage(), vec!['0', '1', '2', '3']);
}

#[test]
fn test_iter() {
    let l = CircularBuffer::from_raw_parts(vec!['a', 'b', 'c'], 0);
    let i = l.iter();
    assert_eq!(i.len(), 3);
    assert_eq!(i[0], 'a');
    assert_eq!(i[1], 'b');
    assert_eq!(i[2], 'c');

    let l = CircularBuffer::from_raw_parts(vec!['a', 'b', 'c'], 1);
    let i = l.iter();
    assert_eq!(i.len(), 3);
    assert_eq!(i[0], 'b');
    assert_eq!(i[1], 'c');
    assert_eq!(i[2], 'a');

    let l = CircularBuffer::from_raw_parts(vec!['a', 'b', 'c'], 2);
    let i = l.iter();
    assert_eq!(i.len(), 3);
    assert_eq!(i[0], 'c');
    assert_eq!(i[1], 'a');
    assert_eq!(i[2], 'b');
}

#[test]
fn test_iter_circular() {
    let l = CircularBuffer::from_raw_parts(vec!['a', 'b', 'c'], 0);
    let i = l.iter_circular(9);
    assert_eq!(i, vec!['a', 'b', 'c', 'a', 'b', 'c', 'a', 'b', 'c']);

    let l = CircularBuffer::from_raw_parts(vec!['a', 'b', 'c'], 1);
    let i = l.iter_circular(9);
    assert_eq!(i, vec!['b', 'c', 'a', 'b', 'c', 'a', 'b', 'c', 'a']);

    let l = CircularBuffer::from_raw_parts(vec!['a', 'b', 'c'], 2);
    let i = l.iter_circular(9);
    assert_eq!(i, vec!['c', 'a', 'b', 'c', 'a', 'b', 'c', 'a', 'b']);
}

#[test]
fn test_internal_index() {
    let l = CircularBuffer::from_raw_parts(vec!['a', 'b', 'c'], 0);
    assert_eq!(l.internal_index(0), 0);
    assert_eq!(l.internal_index(1), 1);
    assert_eq!(l.internal_index(2), 2);
    assert_eq!(l.internal_index(3), 0);
    assert_eq!(l.internal_index(4), 1);
    assert_eq!(l.internal_index(5), 2);
    assert_eq!(l.internal_index(6), 0);

    let l = CircularBuffer::from_raw_parts(vec!['a', 'b', 'c'], 1);
    assert_eq!(l.internal_index(0), 1);
    assert_eq!(l.internal_index(1), 2);
    assert_eq!(l.internal_index(2), 0);
    assert_eq!(l.internal_index(3), 1);
    assert_eq!(l.internal_index(4), 2);
    assert_eq!(l.internal_index(5), 0);
    assert_eq!(l.internal_index(6), 1);

    let l = CircularBuffer::from_raw_parts(vec!['a', 'b', 'c'], 2);
    assert_eq!(l.internal_index(0), 2);
    assert_eq!(l.internal_index(1), 0);
    assert_eq!(l.internal_index(2), 1);
    assert_eq!(l.internal_index(3), 2);
    assert_eq!(l.internal_index(4), 0);
    assert_eq!(l.internal_index(5), 1);
    assert_eq!(l.internal_index(6), 2);
}

#[test]
fn test_internal_index_reversed() {
    let l = CircularBuffer::from_raw_parts(vec!['a', 'b', 'c'], 0);
    assert_eq!(l.internal_index_reversed(0), 0);
    assert_eq!(l.internal_index_reversed(1), 2);
    assert_eq!(l.internal_index_reversed(2), 1);
    assert_eq!(l.internal_index_reversed(3), 0);
    assert_eq!(l.internal_index_reversed(4), 2);
    assert_eq!(l.internal_index_reversed(5), 1);
    assert_eq!(l.internal_index_reversed(6), 0);

    let l = CircularBuffer::from_raw_parts(vec!['a', 'b', 'c'], 1);
    assert_eq!(l.internal_index_reversed(0), 1);
    assert_eq!(l.internal_index_reversed(1), 0);
    assert_eq!(l.internal_index_reversed(2), 2);
    assert_eq!(l.internal_index_reversed(3), 1);
    assert_eq!(l.internal_index_reversed(4), 0);
    assert_eq!(l.internal_index_reversed(5), 2);
    assert_eq!(l.internal_index_reversed(6), 1);

    let l = CircularBuffer::from_raw_parts(vec!['a', 'b', 'c'], 2);
    assert_eq!(l.internal_index_reversed(0), 2);
    assert_eq!(l.internal_index_reversed(1), 1);
    assert_eq!(l.internal_index_reversed(2), 0);
    assert_eq!(l.internal_index_reversed(3), 2);
    assert_eq!(l.internal_index_reversed(4), 1);
    assert_eq!(l.internal_index_reversed(5), 0);
    assert_eq!(l.internal_index_reversed(6), 2);
}

#[test]
fn test_queue_reversed() {
    let mut l = CircularBuffer::from_storage(vec!['a', 'b', 'c', 'd']).unwrap();
    assert_eq!(l.first_index(), 0);
    assert_eq!(*l.storage(), vec!['a', 'b', 'c', 'd']);

    l.queue_reversed('9');
    assert_eq!(l.first_index(), 1);
    assert_eq!(*l.storage(), vec!['9', 'b', 'c', 'd']);

    l.queue_reversed('8');
    assert_eq!(l.first_index(), 2);
    assert_eq!(*l.storage(), vec!['9', '8', 'c', 'd']);

    l.queue_reversed('7');
    assert_eq!(l.first_index(), 3);
    assert_eq!(*l.storage(), vec!['9', '8', '7', 'd']);

    l.queue_reversed('6');
    assert_eq!(l.first_index(), 0);
    assert_eq!(*l.storage(), vec!['9', '8', '7', '6']);

    l.queue_reversed('5');
    assert_eq!(l.first_index(), 1);
    assert_eq!(*l.storage(), vec!['5', '8', '7', '6']);

    l.queue_reversed('4');
    assert_eq!(l.first_index(), 2);
    assert_eq!(*l.storage(), vec!['5', '4', '7', '6']);
}
