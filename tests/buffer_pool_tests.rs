use rudpbase::{
    BufferPool, SharedBufferPool, DEFAULT_BUFFER_SIZE, MAX_POOL_CAPACITY, PROTOCOL_HEADER_SIZE,
};

#[test]
fn test_buffer_pool_basic() {
    let pool = SharedBufferPool::default();

    let mut buffer = pool.get_write_buffer().unwrap();
    assert_eq!(buffer.data_len(), 0);

    let test_data = b"Hello, world!";
    buffer.data_mut()[..test_data.len()].copy_from_slice(test_data);
    buffer.set_data_len(test_data.len()).unwrap();

    assert_eq!(buffer.data(), test_data);
    assert_eq!(buffer.data_len(), test_data.len());
}

#[test]
fn test_buffer_pool_reuse() {
    let pool = SharedBufferPool::default();

    let initial_stats = pool.stats().unwrap();

    {
        let buffer = pool.get_write_buffer().unwrap();
        pool.release(buffer);
    }

    let _buffer2 = pool.get_write_buffer().unwrap();

    let final_stats = pool.stats().unwrap();
    assert_eq!(final_stats.total_allocations, initial_stats.total_allocations + 2);
    assert!(final_stats.pool_hits > initial_stats.pool_hits);
}

#[test]
fn test_buffer_size_limit() {
    let pool = SharedBufferPool::default();
    let mut buffer = pool.get_write_buffer().unwrap();

    let max_data_len = DEFAULT_BUFFER_SIZE - PROTOCOL_HEADER_SIZE;
    assert!(buffer.set_data_len(max_data_len).is_ok());
    assert!(buffer.set_data_len(max_data_len + 1).is_err());
}

#[test]
fn test_buffer_header_access() {
    let pool = SharedBufferPool::default();
    let mut buffer = pool.get_write_buffer().unwrap();

    let header = buffer.header_mut();
    assert_eq!(header.len(), PROTOCOL_HEADER_SIZE);

    header[0] = 1;
    header[1..5].copy_from_slice(&[0x12, 0x34, 0x56, 0x78]);

    let test_data = b"test";
    buffer.data_mut()[..test_data.len()].copy_from_slice(test_data);
    buffer.set_data_len(test_data.len()).unwrap();

    let full_packet = buffer.full_packet();
    assert_eq!(full_packet.len(), PROTOCOL_HEADER_SIZE + test_data.len());
    assert_eq!(full_packet[0], 1);
    assert_eq!(&full_packet[PROTOCOL_HEADER_SIZE..], test_data);
}

#[test]
fn payload_capacity_is_1200_bytes() {
    let pool = SharedBufferPool::new(1);
    let mut buffer = pool.get_write_buffer().unwrap();
    assert_eq!(buffer.data_mut().len(), 1200);
    assert!(buffer.set_data_len(1200).is_ok());
    match buffer.set_data_len(1201) {
        Err(rudpbase::RudpError::BufferTooLarge { size, max }) => {
            assert_eq!(size, 1201);
            assert_eq!(max, 1200);
        }
        _ => panic!("expected BufferTooLarge"),
    }
    assert_eq!(buffer.data_len(), 1200);
}

#[test]
fn acquire_counts_hits_and_misses() {
    let mut pool = BufferPool::new(1);
    let a = pool.acquire();
    assert_eq!(a.data_len(), 0);
    let s = pool.stats();
    assert_eq!((s.total_allocations, s.pool_hits, s.pool_misses, s.free_count), (1, 1, 0, 0));
    let b = pool.acquire();
    let s = pool.stats();
    assert_eq!((s.total_allocations, s.pool_hits, s.pool_misses, s.free_count), (2, 1, 1, 0));
    pool.release(a);
    pool.release(b);
    assert_eq!(pool.stats().free_count, 2);
    let c = pool.acquire();
    assert_eq!(c.data_len(), 0);
    assert_eq!(pool.stats().pool_hits, 2);
}

#[test]
fn release_resets_length_and_keeps_bytes() {
    let mut pool = BufferPool::new(0);
    let mut b = pool.acquire();
    b.data_mut()[..3].copy_from_slice(b"abc");
    b.set_data_len(3).unwrap();
    pool.release(b);
    let again = pool.acquire();
    assert_eq!(again.data_len(), 0);
    assert_eq!(&again.raw_buffer()[PROTOCOL_HEADER_SIZE..PROTOCOL_HEADER_SIZE + 3], b"abc");
}

#[test]
fn warmup_stops_at_capacity() {
    let mut pool = BufferPool::new(MAX_POOL_CAPACITY - 2);
    pool.warmup(5);
    assert_eq!(pool.stats().free_count, MAX_POOL_CAPACITY);
    let shared = SharedBufferPool::new(3);
    shared.warmup(4).unwrap();
    assert_eq!(shared.stats().unwrap().free_count, 7);
}

#[test]
fn shared_pool_clones_share_blocks() {
    let pool = SharedBufferPool::new(2);
    let other = pool.clone();
    let b = other.get_write_buffer().unwrap();
    assert_eq!(pool.stats().unwrap().free_count, 1);
    pool.release(b);
    assert_eq!(other.stats().unwrap().free_count, 2);
}

#[test]
fn default_pool_has_default_capacity() {
    let pool = BufferPool::default();
    let s = pool.stats();
    assert_eq!(s.free_count, 500);
    assert_eq!(s.total_allocations, 0);
}

#[test]
fn released_buffer_is_reused_by_the_next_acquire() {
    let pool = SharedBufferPool::new(0);
    let b = pool.get_write_buffer().unwrap();
    assert_eq!(pool.stats().unwrap().pool_misses, 1);
    pool.release(b);
    let _again = pool.get_write_buffer().unwrap();
    let s = pool.stats().unwrap();
    assert_eq!((s.pool_hits, s.pool_misses, s.free_count), (1, 1, 0));
}
