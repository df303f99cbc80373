use vstd::prelude::*;
use vstd::rwlock::{RwLock, RwLockPredicate};
use std::collections::VecDeque;
use std::sync::Arc;
use crate::error::RudpError;
use crate::protocol::{PacketType, PROTOCOL_HEADER_SIZE, MAX_BUFFER_SIZE, be32};
use crate::security::{SecurityCode, security_code};

verus! {

/// Size of every pooled block: the reserved header followed by the payload region.
pub const DEFAULT_BUFFER_SIZE: usize = 1209;

/// Most free blocks a pool keeps.
pub const MAX_POOL_CAPACITY: usize = 200000;

/// Free blocks a default pool starts with.
pub const DEFAULT_INITIAL_CAPACITY: usize = 500;

/// A fixed-size block: `[header (9 bytes)][payload region]`.
///
/// Callers write only the payload region; the engine fills the header.
pub struct PooledBuffer {
    raw_buffer: Vec<u8>,
    data_len: usize,
}

/// The header bytes of a frame of type `t` with sequence `seq` and payload `data`.
pub open spec fn header_bytes(t: PacketType, seq: u32, data: Seq<u8>) -> Seq<u8> {
    seq![t.tag()] + be32(security_code(t, seq, data)) + be32(seq)
}

impl PooledBuffer {
    /// All bytes of the block.
    pub closed spec fn raw(&self) -> Seq<u8> {
        self.raw_buffer@
    }

    /// Length of the payload written.
    pub closed spec fn len_spec(&self) -> nat {
        self.data_len as nat
    }

    pub open spec fn wf(&self) -> bool {
        &&& self.raw().len() == DEFAULT_BUFFER_SIZE
        &&& self.len_spec() <= MAX_BUFFER_SIZE
    }

    /// The payload: the first `data_len` bytes of the payload region.
    pub open spec fn payload(&self) -> Seq<u8> {
        self.raw().subrange(
            PROTOCOL_HEADER_SIZE as int,
            PROTOCOL_HEADER_SIZE + self.len_spec(),
        )
    }

    /// The reserved header region.
    pub open spec fn header(&self) -> Seq<u8> {
        self.raw().subrange(0, PROTOCOL_HEADER_SIZE as int)
    }

    /// The header followed by the payload.
    pub open spec fn frame(&self) -> Seq<u8> {
        self.raw().subrange(0, PROTOCOL_HEADER_SIZE + self.len_spec())
    }

    fn from_raw(raw_buffer: Vec<u8>) -> (r: Self)
        requires
            raw_buffer@.len() == DEFAULT_BUFFER_SIZE,
        ensures
            r.wf(),
            r.len_spec() == 0,
            r.raw() == raw_buffer@,
    {
        PooledBuffer { raw_buffer, data_len: 0 }
    }

    fn new() -> (r: Self)
        ensures
            r.wf(),
            r.len_spec() == 0,
    {
        Self::from_raw(vec![0u8; DEFAULT_BUFFER_SIZE])
    }

    /// The writable payload region, everything after the header.
    pub fn data_mut(&mut self) -> (r: &mut [u8])
        requires
            old(self).wf(),
        ensures
            r@ == old(self).raw().subrange(
                PROTOCOL_HEADER_SIZE as int,
                DEFAULT_BUFFER_SIZE as int,
            ),
            final(self).raw() == old(self).header() + final(r)@,
            final(self).len_spec() == old(self).len_spec(),
    {
        let s = self.raw_buffer.as_mut_slice();
        let (_, d) = s.split_at_mut(PROTOCOL_HEADER_SIZE);
        d
    }

    /// The payload written so far.
    pub fn data(&self) -> (r: &[u8])
        requires
            self.wf(),
        ensures
            r@ == self.payload(),
    {
        let s = self.raw_buffer.as_slice();
        let (f, _) = s.split_at(PROTOCOL_HEADER_SIZE + self.data_len);
        let (_, d) = f.split_at(PROTOCOL_HEADER_SIZE);
        d
    }

    /// Set the payload length; fails with `BufferTooLarge` above the payload capacity.
    pub fn set_data_len(&mut self, len: usize) -> (r: Result<(), RudpError>)
        requires
            old(self).wf(),
        ensures
            final(self).wf(),
            final(self).raw() == old(self).raw(),
            len <= MAX_BUFFER_SIZE ==> r is Ok && final(self).len_spec() == len,
            len > MAX_BUFFER_SIZE ==> (r matches Err(RudpError::BufferTooLarge { size, max })
                && size == len && max == MAX_BUFFER_SIZE && final(self).len_spec()
                == old(self).len_spec()),
    {
        let max_data_len = self.raw_buffer.len() - PROTOCOL_HEADER_SIZE;
        if len > max_data_len {
            return Err(RudpError::BufferTooLarge { size: len, max: max_data_len });
        }
        self.data_len = len;
        Ok(())
    }

    /// Length of the payload written.
    pub fn data_len(&self) -> (r: usize)
        ensures
            r == self.len_spec(),
    {
        self.data_len
    }

    /// All bytes of the block, header included.
    pub fn raw_buffer(&self) -> (r: &[u8])
        ensures
            r@ == self.raw(),
    {
        self.raw_buffer.as_slice()
    }

    /// The header region, writable.
    pub fn header_mut(&mut self) -> (r: &mut [u8])
        requires
            old(self).wf(),
        ensures
            r@ == old(self).header(),
            final(self).raw() == final(r)@ + old(self).raw().subrange(
                PROTOCOL_HEADER_SIZE as int,
                DEFAULT_BUFFER_SIZE as int,
            ),
            final(self).len_spec() == old(self).len_spec(),
    {
        let s = self.raw_buffer.as_mut_slice();
        let (h, _) = s.split_at_mut(PROTOCOL_HEADER_SIZE);
        h
    }

    /// The frame: header followed by the payload.
    pub fn full_packet(&self) -> (r: &[u8])
        requires
            self.wf(),
        ensures
            r@ == self.frame(),
    {
        let s = self.raw_buffer.as_slice();
        let (f, _) = s.split_at(PROTOCOL_HEADER_SIZE + self.data_len);
        f
    }

    /// Copy `src` into the payload region and set the payload length to its length.
    pub(crate) fn set_payload(&mut self, src: &[u8])
        requires
            old(self).wf(),
            src@.len() <= MAX_BUFFER_SIZE,
        ensures
            final(self).wf(),
            final(self).payload() == src@,
    {
        let mut i: usize = 0;
        while i < src.len()
            invariant
                self.raw_buffer@.len() == DEFAULT_BUFFER_SIZE,
                src@.len() <= MAX_BUFFER_SIZE,
                i <= src@.len(),
                forall|j: int|
                    0 <= j < i ==> self.raw_buffer@[PROTOCOL_HEADER_SIZE + j] == src@[j],
            decreases src@.len() - i,
        {
            self.raw_buffer[PROTOCOL_HEADER_SIZE + i] = src[i];
            i = i + 1;
        }
        self.data_len = src.len();
        assert(self.payload() =~= src@);
    }

    /// Write the header of a frame of type `packet_type` with sequence `seq`, its integrity
    /// tag computed over the payload currently held.
    pub(crate) fn fill_protocol_header(&mut self, packet_type: PacketType, seq: u32) -> (r: Result<
        (),
        RudpError,
    >)
        requires
            old(self).wf(),
        ensures
            r is Ok,
            final(self).wf(),
            final(self).payload() == old(self).payload(),
            final(self).header() == header_bytes(packet_type, seq, old(self).payload()),
            final(self).frame() == header_bytes(packet_type, seq, old(self).payload())
                + old(self).payload(),
    {
        let code = SecurityCode::calculate(packet_type, seq, self.data());
        let ghost p = self.payload();
        self.raw_buffer[0] = packet_type.to_u8();
        self.raw_buffer[1] = (code >> 24u32) as u8;
        self.raw_buffer[2] = (code >> 16u32) as u8;
        self.raw_buffer[3] = (code >> 8u32) as u8;
        self.raw_buffer[4] = code as u8;
        self.raw_buffer[5] = (seq >> 24u32) as u8;
        self.raw_buffer[6] = (seq >> 16u32) as u8;
        self.raw_buffer[7] = (seq >> 8u32) as u8;
        self.raw_buffer[8] = seq as u8;
        assert(self.payload() =~= p);
        assert(self.header() =~= header_bytes(packet_type, seq, p));
        assert(self.frame() =~= self.header() + self.payload());
        Ok(())
    }

    /// Reset for reuse: the payload length goes back to 0; the bytes are kept.
    fn reset(&mut self)
        requires
            old(self).wf(),
        ensures
            final(self).wf(),
            final(self).len_spec() == 0,
            final(self).raw() == old(self).raw(),
    {
        self.data_len = 0;
    }
}

/// Counters of a pool.
#[derive(Debug, Clone)]
pub struct PoolStats {
    /// Number of buffers handed out
    pub total_allocations: u64,
    /// Buffers taken from the free list
    pub pool_hits: u64,
    /// Buffers freshly allocated because the free list was empty
    pub pool_misses: u64,
    /// Free buffers held now
    pub free_count: usize,
}

/// A pool of fixed-size blocks.
pub struct BufferPool {
    free_buffers: VecDeque<Vec<u8>>,
    stats: PoolStats,
}

impl View for BufferPool {
    type V = PoolStats;

    closed spec fn view(&self) -> PoolStats {
        PoolStats {
            total_allocations: self.stats.total_allocations,
            pool_hits: self.stats.pool_hits,
            pool_misses: self.stats.pool_misses,
            free_count: self.free_buffers@.len() as usize,
        }
    }
}

/// `n + 1`, held at `u64::MAX`.
pub open spec fn bump(n: u64) -> u64 {
    if n == u64::MAX {
        n
    } else {
        (n + 1) as u64
    }
}

impl BufferPool {
    pub closed spec fn wf(&self) -> bool {
        &&& self.free_buffers@.len() <= MAX_POOL_CAPACITY
        &&& forall|i: int|
            0 <= i < self.free_buffers@.len() ==> (#[trigger] self.free_buffers@[i])@.len()
                == DEFAULT_BUFFER_SIZE
    }

    /// A pool holding `initial_capacity` free blocks, or `MAX_POOL_CAPACITY` if fewer.
    pub fn new(initial_capacity: usize) -> (r: Self)
        ensures
            r.wf(),
            r@.free_count == vstd::math::min(initial_capacity as int, MAX_POOL_CAPACITY as int),
            r@.total_allocations == 0,
            r@.pool_hits == 0,
            r@.pool_misses == 0,
    {
        let mut pool = BufferPool {
            free_buffers: VecDeque::new(),
            stats: PoolStats { total_allocations: 0, pool_hits: 0, pool_misses: 0, free_count: 0 },
        };
        let n: usize = if initial_capacity < MAX_POOL_CAPACITY {
            initial_capacity
        } else {
            MAX_POOL_CAPACITY
        };
        let mut i: usize = 0;
        while i < n
            invariant
                i <= n,
                n <= MAX_POOL_CAPACITY,
                pool.wf(),
                pool@.free_count == i,
                pool@.total_allocations == 0,
                pool@.pool_hits == 0,
                pool@.pool_misses == 0,
            decreases n - i,
        {
            pool.free_buffers.push_back(vec![0u8; DEFAULT_BUFFER_SIZE]);
            i = i + 1;
        }
        pool
    }

    /// A pool holding `DEFAULT_INITIAL_CAPACITY` free blocks.
    pub fn default() -> (r: Self)
        ensures
            r.wf(),
            r@.free_count == DEFAULT_INITIAL_CAPACITY,
            r@.total_allocations == 0,
            r@.pool_hits == 0,
            r@.pool_misses == 0,
    {
        Self::new(DEFAULT_INITIAL_CAPACITY)
    }

    /// Take a block: from the front of the free list (a hit), or freshly allocated (a miss).
    fn get_buffer(&mut self) -> (r: Vec<u8>)
        requires
            old(self).wf(),
        ensures
            final(self).wf(),
            r@.len() == DEFAULT_BUFFER_SIZE,
            final(self)@.total_allocations == bump(old(self)@.total_allocations),
            old(self)@.free_count > 0 ==> {
                &&& final(self)@.free_count == old(self)@.free_count - 1
                &&& final(self)@.pool_hits == bump(old(self)@.pool_hits)
                &&& final(self)@.pool_misses == old(self)@.pool_misses
            },
            old(self)@.free_count == 0 ==> {
                &&& final(self)@.free_count == 0
                &&& final(self)@.pool_hits == old(self)@.pool_hits
                &&& final(self)@.pool_misses == bump(old(self)@.pool_misses)
            },
    {
        self.stats.total_allocations = self.stats.total_allocations.saturating_add(1);
        match self.free_buffers.pop_front() {
            Some(buffer) => {
                assert(old(self).free_buffers@[0]@.len() == DEFAULT_BUFFER_SIZE);
                assert(forall|i: int|
                    0 <= i < self.free_buffers@.len() ==> self.free_buffers@[i]
                        == old(self).free_buffers@[i + 1]);
                self.stats.pool_hits = self.stats.pool_hits.saturating_add(1);
                buffer
            },
            None => {
                self.stats.pool_misses = self.stats.pool_misses.saturating_add(1);
                vec![0u8; DEFAULT_BUFFER_SIZE]
            },
        }
    }

    /// Hand out a buffer with an empty payload.
    pub fn acquire(&mut self) -> (r: PooledBuffer)
        requires
            old(self).wf(),
        ensures
            final(self).wf(),
            r.wf(),
            r.len_spec() == 0,
            final(self)@.total_allocations == bump(old(self)@.total_allocations),
            old(self)@.free_count > 0 ==> {
                &&& final(self)@.free_count == old(self)@.free_count - 1
                &&& final(self)@.pool_hits == bump(old(self)@.pool_hits)
                &&& final(self)@.pool_misses == old(self)@.pool_misses
            },
            old(self)@.free_count == 0 ==> {
                &&& final(self)@.free_count == 0
                &&& final(self)@.pool_hits == old(self)@.pool_hits
                &&& final(self)@.pool_misses == bump(old(self)@.pool_misses)
            },
    {
        PooledBuffer::from_raw(self.get_buffer())
    }

    /// Take a buffer back: its payload length is reset and it joins the free list, unless
    /// the list already holds `MAX_POOL_CAPACITY` blocks, in which case it is dropped.
    pub fn release(&mut self, buffer: PooledBuffer)
        requires
            old(self).wf(),
            buffer.wf(),
        ensures
            final(self).wf(),
            final(self)@.total_allocations == old(self)@.total_allocations,
            final(self)@.pool_hits == old(self)@.pool_hits,
            final(self)@.pool_misses == old(self)@.pool_misses,
            final(self)@.free_count == if old(self)@.free_count < MAX_POOL_CAPACITY {
                old(self)@.free_count + 1
            } else {
                old(self)@.free_count as int
            },
    {
        let mut buffer = buffer;
        buffer.reset();
        if self.free_buffers.len() < MAX_POOL_CAPACITY {
            self.free_buffers.push_back(buffer.raw_buffer);
        }
    }

    /// Add free blocks until there are `count` more or the list holds `MAX_POOL_CAPACITY`.
    pub fn warmup(&mut self, count: usize)
        requires
            old(self).wf(),
        ensures
            final(self).wf(),
            final(self)@.total_allocations == old(self)@.total_allocations,
            final(self)@.pool_hits == old(self)@.pool_hits,
            final(self)@.pool_misses == old(self)@.pool_misses,
            old(self)@.free_count >= MAX_POOL_CAPACITY ==> final(self)@.free_count
                == old(self)@.free_count,
            old(self)@.free_count < MAX_POOL_CAPACITY ==> final(self)@.free_count == vstd::math::min(
                old(self)@.free_count + count,
                MAX_POOL_CAPACITY as int,
            ),
    {
        let mut i: usize = 0;
        while i < count
            invariant
                i <= count,
                self.wf(),
                self@.total_allocations == old(self)@.total_allocations,
                self@.pool_hits == old(self)@.pool_hits,
                self@.pool_misses == old(self)@.pool_misses,
                old(self)@.free_count >= MAX_POOL_CAPACITY ==> self@.free_count
                    == old(self)@.free_count,
                old(self)@.free_count < MAX_POOL_CAPACITY ==> self@.free_count == vstd::math::min(
                    old(self)@.free_count + i,
                    MAX_POOL_CAPACITY as int,
                ),
            ensures
                i == count || self@.free_count >= MAX_POOL_CAPACITY,
            decreases count - i,
        {
            if self.free_buffers.len() >= MAX_POOL_CAPACITY {
                break;
            }
            self.free_buffers.push_back(vec![0u8; DEFAULT_BUFFER_SIZE]);
            i = i + 1;
        }
    }

    /// The counters, and the number of free blocks.
    pub fn stats(&self) -> (r: PoolStats)
        requires
            self.wf(),
        ensures
            r == self@,
            r.free_count <= MAX_POOL_CAPACITY,
    {
        PoolStats {
            total_allocations: self.stats.total_allocations,
            pool_hits: self.stats.pool_hits,
            pool_misses: self.stats.pool_misses,
            free_count: self.free_buffers.len(),
        }
    }
}

struct PoolInv;

impl RwLockPredicate<BufferPool> for PoolInv {
    open spec fn inv(self, v: BufferPool) -> bool {
        v.wf()
    }
}

/// A pool handle that can be shared between engines; clones refer to the same pool.
#[derive(Clone)]
pub struct SharedBufferPool {
    pool: Arc<RwLock<BufferPool, PoolInv>>,
}

impl SharedBufferPool {
    pub closed spec fn wf(&self) -> bool {
        self.pool.pred() == PoolInv
    }

    /// A shared pool holding `initial_capacity` free blocks, or `MAX_POOL_CAPACITY` if fewer.
    pub fn new(initial_capacity: usize) -> (r: Self)
        ensures
            r.wf(),
    {
        let pool = BufferPool::new(initial_capacity);
        SharedBufferPool { pool: Arc::new(RwLock::new(pool, Ghost(PoolInv))) }
    }

    /// A shared pool holding `DEFAULT_INITIAL_CAPACITY` free blocks.
    pub fn default() -> (r: Self)
        ensures
            r.wf(),
    {
        Self::new(DEFAULT_INITIAL_CAPACITY)
    }

    /// A buffer with an empty payload, ready for writing.
    pub fn get_write_buffer(&self) -> (r: Result<PooledBuffer, RudpError>)
        requires
            self.wf(),
        ensures
            r matches Ok(b) && b.wf() && b.len_spec() == 0,
    {
        let (mut pool, handle) = self.pool.acquire_write();
        let buffer = pool.acquire();
        handle.release_write(pool);
        Ok(buffer)
    }

    /// Give a buffer back to the pool.
    pub fn release(&self, buffer: PooledBuffer)
        requires
            self.wf(),
            buffer.wf(),
    {
        let (mut pool, handle) = self.pool.acquire_write();
        pool.release(buffer);
        handle.release_write(pool);
    }

    /// The counters of the shared pool.
    pub fn stats(&self) -> (r: Result<PoolStats, RudpError>)
        requires
            self.wf(),
        ensures
            r matches Ok(s) && s.free_count <= MAX_POOL_CAPACITY,
    {
        let (pool, handle) = self.pool.acquire_write();
        let s = pool.stats();
        handle.release_write(pool);
        Ok(s)
    }

    /// Add free blocks until there are `count` more or the pool holds `MAX_POOL_CAPACITY`.
    pub fn warmup(&self, count: usize) -> (r: Result<(), RudpError>)
        requires
            self.wf(),
        ensures
            r is Ok,
    {
        let (mut pool, handle) = self.pool.acquire_write();
        pool.warmup(count);
        handle.release_write(pool);
        Ok(())
    }
}

} // verus!
