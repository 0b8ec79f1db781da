//! The other allocator: one anonymous mapping per allocation, with the
//! requested size stored in the word in front of the data.
use vstd::prelude::*;

verus! {

/// The `mmap` system call number.
pub const SC_MMAP: usize = 9;

/// The `mremap` system call number.
pub const SC_MREMAP: usize = 25;

/// The `munmap` system call number.
pub const SC_MUNMAP: usize = 11;

/// Mapped pages may be read.
pub const PROT_READ: usize = 1;

/// Mapped pages may be written.
pub const PROT_WRITE: usize = 2;

/// The mapping is shared with other processes.
pub const MAP_SHARED: usize = 0x01;

/// The mapping is private to this process.
pub const MAP_PRIVATE: usize = 0x02;

/// The mapping goes exactly at the given address.
pub const MAP_FIXED: usize = 0x10;

/// The mapping is not backed by a file.
pub const MAP_ANONYMOUS: usize = 0x20;

/// The bytes of the size word in front of every allocation.
pub const WORD_SIZE: usize = 8;

/// The arguments of an `mmap` call.
pub struct MapRequest {
    pub addr: usize,
    pub length: usize,
    pub prot: usize,
    pub flags: usize,
    pub fd: i32,
    pub offset: usize,
}

/// The mapping that an allocation of `size` bytes asks for: anywhere,
/// readable and writable, private and anonymous, long enough for the size
/// word and the data.
pub fn malloc_request(size: usize) -> (r: MapRequest)
    requires
        WORD_SIZE + size <= usize::MAX,
    ensures
        r.addr == 0,
        r.length == WORD_SIZE + size,
        r.prot == 3,
        r.flags == 0x22,
        r.fd == -1,
        r.offset == 0,
{
    let prot = PROT_READ | PROT_WRITE;
    let flags = MAP_PRIVATE | MAP_ANONYMOUS;
    assert(prot == 3) by (bit_vector)
        requires
            prot == (1usize | 2usize),
    ;
    assert(flags == 0x22) by (bit_vector)
        requires
            flags == (2usize | 0x20usize),
    ;
    MapRequest { addr: 0, length: WORD_SIZE + size, prot, flags, fd: -1, offset: 0 }
}

/// The data pointer handed out for the mapping at `region`: past the size word.
pub fn malloc_data(region: usize) -> (r: usize)
    requires
        region + WORD_SIZE <= usize::MAX,
    ensures
        r == region + WORD_SIZE,
{
    region + WORD_SIZE
}

/// The mapping that the data at `ptr` belongs to: where its size word is.
pub fn free_region(ptr: usize) -> (r: usize)
    requires
        ptr >= WORD_SIZE,
    ensures
        r == ptr - WORD_SIZE,
{
    ptr - WORD_SIZE
}

/// The arguments of the `munmap` call that frees the data at `ptr`, whose
/// size word holds `stored`: the mapping's start, and the stored size as
/// the length.
pub fn free_request(ptr: usize, stored: usize) -> (r: (usize, usize))
    requires
        ptr >= WORD_SIZE,
    ensures
        r.0 == ptr - WORD_SIZE,
        r.1 == stored,
{
    (free_region(ptr), stored)
}

/// Freeing the data that an allocation handed out finds the mapping that
/// it came from.
pub proof fn lemma_free_finds_region(region: usize)
    requires
        region + WORD_SIZE <= usize::MAX,
    ensures
        (region + WORD_SIZE) - WORD_SIZE == region,
{
}

} // verus!
