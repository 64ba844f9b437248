//! The part of the firmware memory map that the allocator consumes.

use vstd::prelude::*;

verus! {

/// Bytes in one page of a firmware memory region.
pub const PAGE_BYTES: usize = 4096;

/// How the firmware classifies a memory region.
#[derive(Clone, Copy, Debug, PartialEq, Eq, Structural)]
pub enum EfiMemoryType {
    Reserved,
    LoaderCode,
    LoaderData,
    BootServicesCode,
    BootServicesData,
    RuntimeServicesCode,
    RuntimeServicesData,
    ConventionalMemory,
    UnusableMemory,
    AcpiReclaimMemory,
    AcpiMemoryNvs,
    MemoryMappedIo,
    MemoryMappedIoPortSpace,
    PalCode,
    PersistentMemory,
}

/// One region of the firmware memory map: where it starts, how many pages it
/// spans, and what it may be used for.
#[derive(Clone, Copy, Debug)]
pub struct EfiMemoryDescriptor {
    memory_type: EfiMemoryType,
    physical_start: u64,
    number_of_pages: u64,
}

/// Mathematical model of an [`EfiMemoryDescriptor`].
pub struct Region {
    pub memory_type: EfiMemoryType,
    pub start: nat,
    pub pages: nat,
}

impl Region {
    /// Length of the region in bytes: 4096 for every page.
    pub open spec fn bytes(self) -> nat {
        self.pages * 4096
    }

    /// The region is general-purpose memory that the allocator may hand out.
    pub open spec fn usable(self) -> bool {
        self.memory_type == EfiMemoryType::ConventionalMemory
    }

    /// The whole region is addressable with `usize`.
    pub open spec fn fits(self) -> bool {
        self.start + self.bytes() <= usize::MAX
    }
}

impl View for EfiMemoryDescriptor {
    type V = Region;

    closed spec fn view(&self) -> Region {
        Region {
            memory_type: self.memory_type,
            start: self.physical_start as nat,
            pages: self.number_of_pages as nat,
        }
    }
}

impl EfiMemoryDescriptor {
    pub fn new(memory_type: EfiMemoryType, physical_start: u64, number_of_pages: u64) -> (d: Self)
        ensures
            d@ == (Region {
                memory_type,
                start: physical_start as nat,
                pages: number_of_pages as nat,
            }),
    {
        EfiMemoryDescriptor { memory_type, physical_start, number_of_pages }
    }

    pub fn memory_type(&self) -> (t: EfiMemoryType)
        ensures
            t == self@.memory_type,
    {
        self.memory_type
    }

    pub fn physical_start(&self) -> (a: u64)
        ensures
            a == self@.start,
    {
        self.physical_start
    }

    pub fn number_of_pages(&self) -> (n: u64)
        ensures
            n == self@.pages,
    {
        self.number_of_pages
    }

    /// Length of the region in bytes.
    pub fn number_of_bytes(&self) -> (n: usize)
        requires
            self@.fits(),
        ensures
            n == self@.bytes(),
    {
        self.number_of_pages as usize * 4096
    }

    /// Whether the whole region is addressable with `usize`.
    pub fn fits_address_space(&self) -> (b: bool)
        ensures
            b == self@.fits(),
    {
        let limit: u64 = usize::MAX as u64;
        match self.number_of_pages.checked_mul(4096) {
            None => false,
            Some(bytes) => match self.physical_start.checked_add(bytes) {
                None => false,
                Some(end) => end <= limit,
            },
        }
    }
}

} // verus!
