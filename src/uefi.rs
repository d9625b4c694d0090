use vstd::prelude::*;

verus! {

/// Type of a region in the firmware's memory map.
#[allow(non_camel_case_types)]
#[derive(Clone, Copy, Debug, PartialEq, Eq, Structural)]
pub enum EfiMemoryType {
    RESERVED,
    LOADER_CODE,
    LOADER_DATA,
    BOOT_SERVICES_CODE,
    BOOT_SERVICES_DATA,
    RUNTIME_SERVICES_CODE,
    RUNTIME_SERVICES_DATA,
    CONVENTIONAL_MEMORY,
    UNUSABLE_MEMORY,
    ACPI_RECLAIM_MEMORY,
    ACPI_MEMORY_NVS,
    MEMORY_MAPPED_IO,
    MEMORY_MAPPED_IO_PORT_SPACE,
    PAL_CODE,
    PERSISTENT_MEMORY,
}

/// One entry of the firmware's memory map: a run of 4 KiB pages of one type.
#[derive(Clone, Copy, Debug, PartialEq, Eq, Structural)]
pub struct EfiMemoryDescriptor {
    pub memory_type: EfiMemoryType,
    pub physical_start: u64,
    pub number_of_pages: u64,
}

impl EfiMemoryDescriptor {
    pub fn new(memory_type: EfiMemoryType, physical_start: u64, number_of_pages: u64) -> (r: Self)
        ensures
            r.memory_type == memory_type,
            r.physical_start == physical_start,
            r.number_of_pages == number_of_pages,
    {
        EfiMemoryDescriptor { memory_type, physical_start, number_of_pages }
    }

    pub fn memory_type(&self) -> (r: EfiMemoryType)
        ensures
            r == self.memory_type,
    {
        self.memory_type
    }

    pub fn physical_start(&self) -> (r: u64)
        ensures
            r == self.physical_start,
    {
        self.physical_start
    }

    pub fn number_of_pages(&self) -> (r: u64)
        ensures
            r == self.number_of_pages,
    {
        self.number_of_pages
    }
}

/// The number of pages of conventional memory that `m` describes.
pub open spec fn conventional_pages(m: Seq<EfiMemoryDescriptor>) -> int
    decreases m.len(),
{
    if m.len() == 0 {
        0
    } else {
        conventional_pages(m.drop_last()) + if m.last().memory_type
            == EfiMemoryType::CONVENTIONAL_MEMORY {
            m.last().number_of_pages as int
        } else {
            0
        }
    }
}

proof fn lemma_conventional_pages_prefix(m: Seq<EfiMemoryDescriptor>, k: int)
    requires
        0 <= k <= m.len(),
    ensures
        0 <= conventional_pages(m.take(k)) <= conventional_pages(m),
    decreases m.len(),
{
    if m.len() > 0 {
        if k < m.len() {
            lemma_conventional_pages_prefix(m.drop_last(), k);
            assert(m.drop_last().take(k) =~= m.take(k));
        } else {
            assert(m.take(k) =~= m);
            lemma_conventional_pages_prefix(m.drop_last(), k - 1);
            assert(m.drop_last().take(k - 1) =~= m.drop_last());
        }
    } else {
        assert(m.take(k) =~= m);
    }
}

/// The number of pages of conventional memory in `memory_map`.
pub fn total_conventional_pages(memory_map: &[EfiMemoryDescriptor]) -> (r: u64)
    requires
        conventional_pages(memory_map@) <= u64::MAX,
    ensures
        r == conventional_pages(memory_map@),
{
    let mut total: u64 = 0;
    let mut i: usize = 0;
    while i < memory_map.len()
        invariant
            i <= memory_map@.len(),
            conventional_pages(memory_map@) <= u64::MAX,
            total == conventional_pages(memory_map@.take(i as int)),
        decreases memory_map@.len() - i,
    {
        proof {
            assert(memory_map@.take(i + 1).drop_last() =~= memory_map@.take(i as int));
            lemma_conventional_pages_prefix(memory_map@, i + 1);
        }
        let e = &memory_map[i];
        if e.memory_type() == EfiMemoryType::CONVENTIONAL_MEMORY {
            total = total + e.number_of_pages();
        }
        i = i + 1;
    }
    assert(memory_map@.take(i as int) =~= memory_map@);
    total
}

/// The size in MiB of `pages` pages of 4 KiB, rounded down.
pub fn pages_to_mib(pages: u64) -> (r: u64)
    requires
        pages * 4096 <= u64::MAX,
    ensures
        r == pages * 4096 / 1024 / 1024,
{
    pages * 4096 / 1024 / 1024
}

} // verus!
