//! The layout of x86-64 page-table entries and tables.

use core::marker::PhantomData;
use vstd::prelude::*;

verus! {

/// Bytes in a page, and in a page table.
pub const PAGE_SIZE: usize = 4096;

/// Number of entries in a page table of any level.
pub const TABLE_ENTRIES: usize = 512;

/// The low bits of an entry, which hold attributes and no address.
pub const ATTR_MASK: u64 = 0xFFF;

pub const ATTR_PRESENT: u64 = 0x01;

pub const ATTR_WRITABLE: u64 = 0x02;

pub const ATTR_USER: u64 = 0x04;

pub const ATTR_WRITE_THROUGH: u64 = 0x08;

pub const ATTR_CACHE_DISABLE: u64 = 0x10;

/// The attribute combinations that mappings are created with.
#[derive(Debug, Clone, Copy, PartialEq, Eq, Structural)]
pub enum PageAttr {
    NotPresent,
    ReadWritekernel,
    ReadWriteIo,
}

impl PageAttr {
    /// The attribute bits of an entry mapped with this combination: none for
    /// `NotPresent`; present and writable for `ReadWritekernel`; present,
    /// writable, write-through and cache-disabled for `ReadWriteIo`.
    pub open spec fn spec_bits(self) -> u64 {
        match self {
            PageAttr::NotPresent => 0,
            PageAttr::ReadWritekernel => ATTR_PRESENT | ATTR_WRITABLE,
            PageAttr::ReadWriteIo => ATTR_PRESENT | ATTR_WRITABLE | ATTR_WRITE_THROUGH
                | ATTR_CACHE_DISABLE,
        }
    }

    /// The attribute bits of an entry mapped with this combination.
    #[verifier::when_used_as_spec(spec_bits)]
    pub fn bits(self) -> (b: u64)
        ensures
            b == self.spec_bits(),
    {
        match self {
            PageAttr::NotPresent => 0,
            PageAttr::ReadWritekernel => ATTR_PRESENT | ATTR_WRITABLE,
            PageAttr::ReadWriteIo => ATTR_PRESENT | ATTR_WRITABLE | ATTR_WRITE_THROUGH
                | ATTR_CACHE_DISABLE,
        }
    }

    /// The numeric value of each combination, and what an entry that holds
    /// exactly these bits reports: no address, and presence and writability
    /// for every combination but `NotPresent`.
    pub proof fn lemma_bits(self)
        ensures
            self.spec_bits() == match self {
                PageAttr::NotPresent => 0u64,
                PageAttr::ReadWritekernel => 0x03u64,
                PageAttr::ReadWriteIo => 0x1Bu64,
            },
            value_address(self.spec_bits()) == 0,
            value_is_present(self.spec_bits()) == (self != PageAttr::NotPresent),
            value_is_writable(self.spec_bits()) == (self != PageAttr::NotPresent),
            !value_is_user(self.spec_bits()),
    {
        assert(0x01u64 | 0x02u64 == 0x03u64) by (bit_vector);
        assert(0x01u64 | 0x02u64 | 0x08u64 | 0x10u64 == 0x1Bu64) by (bit_vector);
        assert(0u64 & !0xFFFu64 == 0 && 0x03u64 & !0xFFFu64 == 0 && 0x1Bu64 & !0xFFFu64 == 0)
            by (bit_vector);
        assert(0u64 & 1 == 0 && 0x03u64 & 1 != 0 && 0x1Bu64 & 1 != 0) by (bit_vector);
        assert(0u64 & 2 == 0 && 0x03u64 & 2 != 0 && 0x1Bu64 & 2 != 0) by (bit_vector);
        assert(0u64 & 4 == 0 && 0x03u64 & 4 == 0 && 0x1Bu64 & 4 == 0) by (bit_vector);
    }
}

/// The physical address a virtual address translates to, by the size of the
/// page that maps it.
#[derive(Debug, PartialEq, Eq, Structural)]
pub enum TranslationResult {
    PageMapped4K { phys: u64 },
    PageMapped2M { phys: u64 },
    PageMapped1G { phys: u64 },
}

/// Whether the present bit of an entry value is set.
pub open spec fn value_is_present(value: u64) -> bool {
    value & ATTR_PRESENT != 0
}

/// Whether the writable bit of an entry value is set.
pub open spec fn value_is_writable(value: u64) -> bool {
    value & ATTR_WRITABLE != 0
}

/// Whether the user bit of an entry value is set.
pub open spec fn value_is_user(value: u64) -> bool {
    value & ATTR_USER != 0
}

/// The address bits of an entry value: the value with its attribute bits
/// cleared.
pub open spec fn value_address(value: u64) -> u64 {
    value & !ATTR_MASK
}

/// The address of an entry is the value rounded down to a page boundary.
pub proof fn lemma_value_address(value: u64)
    ensures
        value_address(value) == value - value % 4096,
        value_address(value) % 4096 == 0,
{
    assert(value & !0xFFFu64 == value - value % 4096) by (bit_vector);
    assert((value & !0xFFFu64) % 4096 == 0) by (bit_vector);
}

/// One entry of a page table of level `LEVEL`, whose index field starts at
/// bit `SHIFT` of a virtual address and which refers to a `NEXT`.
pub struct Entry<const LEVEL: usize, const SHIFT: usize, NEXT> {
    value: u64,
    next_type: PhantomData<NEXT>,
}

impl<const LEVEL: usize, const SHIFT: usize, NEXT> View for Entry<LEVEL, SHIFT, NEXT> {
    type V = u64;

    closed spec fn view(&self) -> u64 {
        self.value
    }
}

impl<const LEVEL: usize, const SHIFT: usize, NEXT> Entry<LEVEL, SHIFT, NEXT> {
    /// An entry that holds `value`.
    pub fn new(value: u64) -> (e: Self)
        ensures
            e@ == value,
    {
        Entry { value, next_type: PhantomData }
    }

    /// The raw value of the entry.
    pub fn read_value(&self) -> (v: u64)
        ensures
            v == self@,
    {
        self.value
    }

    /// Whether the entry maps anything.
    pub fn is_presenet(&self) -> (b: bool)
        ensures
            b == value_is_present(self@),
    {
        (self.read_value() & ATTR_PRESENT) != 0
    }

    /// Whether what the entry maps may be written.
    pub fn is_writable(&self) -> (b: bool)
        ensures
            b == value_is_writable(self@),
    {
        (self.read_value() & ATTR_WRITABLE) != 0
    }

    /// Whether what the entry maps may be accessed from user mode.
    pub fn is_user(&self) -> (b: bool)
        ensures
            b == value_is_user(self@),
    {
        (self.read_value() & ATTR_USER) != 0
    }

    /// The entry's attributes as three letters: `p` if present, else `N`; `W`
    /// if writable, else `R`; `U` if open to user mode, else `S`.
    pub fn flag_letters(&self) -> (letters: [char; 3])
        ensures
            letters[0] == if value_is_present(self@) { 'p' } else { 'N' },
            letters[1] == if value_is_writable(self@) { 'W' } else { 'R' },
            letters[2] == if value_is_user(self@) { 'U' } else { 'S' },
    {
        [
            if self.is_presenet() { 'p' } else { 'N' },
            if self.is_writable() { 'W' } else { 'R' },
            if self.is_user() { 'U' } else { 'S' },
        ]
    }

    /// The physical address of what a present entry refers to.
    pub fn table(&self) -> (r: Result<u64, &'static str>)
        ensures
            match r {
                Ok(addr) => value_is_present(self@) && addr == value_address(self@),
                Err(e) => !value_is_present(self@) && e@ == "Page Not Found"@,
            },
    {
        if self.is_presenet() {
            Ok(self.value & !ATTR_MASK)
        } else {
            Err("Page Not Found")
        }
    }
}

/// A page table of level `LEVEL`.
pub struct Table<const LEVEL: usize, const SHIFT: usize, NEXT> {
    entry: [Entry<LEVEL, SHIFT, NEXT>; 512],
}

impl<const LEVEL: usize, const SHIFT: usize, NEXT> View for Table<LEVEL, SHIFT, NEXT> {
    type V = Seq<u64>;

    closed spec fn view(&self) -> Seq<u64> {
        Seq::new(512, |i: int| self.entry[i]@)
    }
}

impl<const LEVEL: usize, const SHIFT: usize, NEXT> Table<LEVEL, SHIFT, NEXT> {
    /// A table that holds the given entries.
    pub fn new(entry: [Entry<LEVEL, SHIFT, NEXT>; 512]) -> (t: Self)
        ensures
            t@.len() == 512,
            forall|i: int| 0 <= i < 512 ==> t@[i] == entry[i]@,
    {
        Table { entry }
    }

    /// The raw value of the entry at `index`.
    pub fn entry_value(&self, index: usize) -> (v: u64)
        requires
            index < 512,
        ensures
            self@.len() == 512,
            v == self@[index as int],
    {
        self.entry[index].read_value()
    }

    /// The indices of the present entries, in ascending order.
    pub fn present_indices(&self) -> (present: Vec<usize>)
        ensures
            self@.len() == 512,
            forall|k: int|
                0 <= k < present@.len() ==> (#[trigger] present@[k]) < 512 && value_is_present(
                    self@[present@[k] as int],
                ),
            forall|k: int, l: int| 0 <= k < l < present@.len() ==> present@[k] < present@[l],
            forall|i: int|
                0 <= i < 512 && value_is_present(#[trigger] self@[i]) ==> present@.contains(
                    i as usize,
                ),
    {
        let mut present: Vec<usize> = Vec::new();
        let mut i: usize = 0;
        while i < TABLE_ENTRIES
            invariant
                i <= 512,
                self@.len() == 512,
                forall|k: int|
                    0 <= k < present@.len() ==> (#[trigger] present@[k]) < i && value_is_present(
                        self@[present@[k] as int],
                    ),
                forall|k: int, l: int| 0 <= k < l < present@.len() ==> present@[k] < present@[l],
                forall|j: int|
                    0 <= j < i && value_is_present(#[trigger] self@[j]) ==> present@.contains(
                        j as usize,
                    ),
            decreases 512 - i,
        {
            if self.entry[i].is_presenet() {
                let ghost before = present@;
                present.push(i);
                proof {
                    assert(present@[before.len() as int] == i);
                    assert forall|j: int|
                        0 <= j < i + 1 && value_is_present(
                            #[trigger] self@[j],
                        ) implies present@.contains(j as usize) by {
                        if j < i {
                            let k = choose|k: int| 0 <= k < before.len() && before[k] == j as usize;
                            assert(present@[k] == j as usize);
                        }
                    }
                }
            }
            i += 1;
        }
        present
    }

    /// The physical address of the next-level structure that the entry at
    /// `index` refers to, if the index is in range and the entry is present.
    pub fn next_level(&self, index: usize) -> (r: Option<u64>)
        ensures
            self@.len() == 512,
            match r {
                Some(addr) => index < 512 && value_is_present(self@[index as int]) && addr
                    == value_address(self@[index as int]),
                None => index >= 512 || !value_is_present(self@[index as int]),
            },
    {
        if index < TABLE_ENTRIES {
            match self.entry[index].table() {
                Ok(addr) => Some(addr),
                Err(_) => None,
            }
        } else {
            None
        }
    }
}

/// A page table, whose entries map pages of 4 KiB.
pub type PT = Table<1, 12, [u8; PAGE_SIZE]>;

/// A page directory, whose entries refer to page tables.
pub type PD = Table<2, 21, PT>;

/// A page-directory-pointer table, whose entries refer to page directories.
pub type PDPT = Table<3, 30, PD>;

/// The top-level table, whose entries refer to page-directory-pointer tables.
pub type PML4 = Table<4, 39, PDPT>;

} // verus!
