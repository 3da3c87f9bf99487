use secure_transfer::buffer_pool::{BufferPool, BUFFER_SIZE};

#[test]
fn pooled_buffers_are_blank() {
    let mut pool = BufferPool::new(2);
    for _ in 0..4 {
        let buffer = pool.acquire();
        assert_eq!(buffer.len(), BUFFER_SIZE);
        assert!(buffer.capacity() >= BUFFER_SIZE);
        assert!(buffer.into_vec().iter().all(|b| *b == 0));
    }
}

#[test]
fn released_buffers_are_blank_again() {
    let mut pool = BufferPool::new(1);
    let mut buffer = pool.acquire();
    for byte in buffer.deref_mut().iter_mut() {
        *byte = 7;
    }
    assert_eq!(buffer.deref()[0], 7);
    buffer.resize(10);
    let address = buffer.deref().as_ptr();
    pool.release(buffer);
    let again = pool.acquire();
    assert_eq!(again.deref().as_ptr(), address);
    assert_eq!(again.len(), BUFFER_SIZE);
    assert!(again.into_vec().iter().all(|b| *b == 0));
}

#[test]
fn a_full_pool_lets_buffers_go() {
    let mut pool = BufferPool::new(1);
    let mut one = pool.acquire();
    let two = pool.acquire();
    one.deref_mut()[0] = 1;
    let address = one.deref().as_ptr();
    pool.release(one);
    pool.release(two);
    let kept = pool.acquire();
    assert_eq!(kept.deref().as_ptr(), address);
}

#[test]
fn buffers_leave_in_the_order_they_came() {
    let mut pool = BufferPool::new(2);
    let one = pool.acquire();
    let two = pool.acquire();
    let (first, second) = (one.deref().as_ptr(), two.deref().as_ptr());
    pool.release(two);
    pool.release(one);
    let third = pool.acquire();
    let fourth = pool.acquire();
    assert_eq!(third.deref().as_ptr(), second);
    assert_eq!(fourth.deref().as_ptr(), first);
}

#[test]
fn resizing_cuts_off_or_fills_up() {
    let mut pool = BufferPool::new(1);
    let mut buffer = pool.acquire();
    buffer.resize(2);
    buffer.deref_mut()[1] = 5;
    buffer.resize(4);
    assert_eq!(*buffer.deref(), vec![0, 5, 0, 0]);
    buffer.resize(1);
    assert_eq!(*buffer.deref(), vec![0]);
    buffer.clear();
    assert_eq!(buffer.len(), 0);
    assert_eq!(buffer.into_vec(), Vec::<u8>::new());
}
