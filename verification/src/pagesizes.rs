//! Page sizes and the arithmetic that rounds an address down to a page boundary.
use vstd::prelude::*;

verus! {

/// Size of a base page in bytes.
pub const PAGESIZE: usize = 4096;

const PGSHIFT_2MB: usize = 21;

/// Size of a 4 KiB page in bytes.
pub const PGSIZE_4KB: usize = 0x1000;

/// Size of a 2 MiB page in bytes.
pub const PGSIZE_2MB: usize = 0x20_0000;

/// Size of a 1 GiB page in bytes.
pub const PGSIZE_1GB: usize = 0x4000_0000;

const PGMASK_4KB: usize = 0xfff;

const PGMASK_2MB: usize = 0x1f_ffff;

const PGMASK_1GB: usize = 0x3fff_ffff;

/// The three page sizes a memory pool can be built from.
#[derive(Clone, Copy, Debug, PartialEq, Eq, Hash, Structural)]
pub enum PageSize {
    PG4KB,
    PG2MB,
    PG1GB,
}

impl PageSize {
    /// The number of bytes in one page of this size.
    pub open spec fn bytes(self) -> nat {
        match self {
            PageSize::PG4KB => 0x1000,
            PageSize::PG2MB => 0x20_0000,
            PageSize::PG1GB => 0x4000_0000,
        }
    }

    /// The number of bytes in one page of this size.
    pub fn as_num(&self) -> (n: usize)
        ensures
            n == self.bytes(),
    {
        match self {
            PageSize::PG4KB => PGSIZE_4KB,
            PageSize::PG2MB => PGSIZE_2MB,
            PageSize::PG1GB => PGSIZE_1GB,
        }
    }
}

/// The largest multiple of `page_size` that is not above `addr`.
pub open spec fn page_floor(addr: int, page_size: int) -> int {
    addr - addr % page_size
}

/// Offset of `addr` within its 4 KiB page.
pub fn pgoff4kb(addr: usize) -> (off: usize)
    ensures
        off == addr % 0x1000,
{
    assert(addr & 0xfff == addr % 0x1000) by (bit_vector);
    addr & PGMASK_4KB
}

/// Number of the 2 MiB page that holds byte offset `off`.
pub fn pgn2mb(off: usize) -> (n: usize)
    ensures
        n == off / 0x20_0000,
{
    assert(off >> 21 == off / 0x20_0000) by (bit_vector);
    off >> PGSHIFT_2MB
}

/// Offset of `addr` within its 2 MiB page.
pub fn pgoff2mb(addr: usize) -> (off: usize)
    ensures
        off == addr % 0x20_0000,
{
    assert(addr & 0x1f_ffff == addr % 0x20_0000) by (bit_vector);
    addr & PGMASK_2MB
}

/// Offset of `addr` within its 1 GiB page.
pub fn pgoff1gb(addr: usize) -> (off: usize)
    ensures
        off == addr % 0x4000_0000,
{
    assert(addr & 0x3fff_ffff == addr % 0x4000_0000) by (bit_vector);
    addr & PGMASK_1GB
}

/// Start of the 1 GiB page that holds `addr`.
pub fn closest_1g_page(addr: usize) -> (page: usize)
    ensures
        page == page_floor(addr as int, 0x4000_0000),
        page % 0x4000_0000 == 0,
        page <= addr < page + 0x4000_0000,
{
    let off = pgoff1gb(addr);
    addr - off
}

/// Start of the 4 KiB page that holds `addr`.
pub fn closest_4k_page(addr: usize) -> (page: usize)
    ensures
        page == page_floor(addr as int, 0x1000),
        page % 0x1000 == 0,
        page <= addr < page + 0x1000,
{
    let off = pgoff4kb(addr);
    addr - off
}

/// Start of the 2 MiB page that holds `addr`.
pub fn closest_2mb_page(addr: usize) -> (page: usize)
    ensures
        page == page_floor(addr as int, 0x20_0000),
        page % 0x20_0000 == 0,
        page <= addr < page + 0x20_0000,
{
    let off = pgoff2mb(addr);
    addr - off
}

} // verus!
