//! The UEFI memory-map records the allocator is initialised from.
use vstd::prelude::*;

verus! {

/// The kind of memory a UEFI memory descriptor describes.
#[allow(non_camel_case_types)]
#[derive(Clone, Copy, Debug, PartialEq, Eq, Structural)]
pub enum EfiMemoryType {
    RESERVED,
    LOADER_CODE,
    LOADER_DATA,
    BOOT_SERVICES_CODE,
    BOOT_SERVICES_DATA,
    RUNTIME_SERVICES_CODE,
    RUNTIME_SERVICES_DATA,
    CONVENTIONAL_MEMORY,
    UNUSABLE_MEMORY,
    ACPI_RECLAIM_MEMORY,
    ACPI_MEMORY_NVS,
    MEMORY_MAPPED_IO,
    MEMORY_MAPPED_IO_PORT_SPACE,
    PAL_CODE,
    PERSISTENT_MEMORY,
}

/// One entry of the UEFI memory map.
#[derive(Clone, Copy, Debug)]
pub struct EfiMemoryDescriptor {
    pub memory_type: EfiMemoryType,
    pub physical_start: u64,
    pub virtual_start: u64,
    pub number_of_pages: u64,
    pub attribute: u64,
}

impl EfiMemoryDescriptor {
    pub fn memory_type(&self) -> (r: EfiMemoryType)
        ensures
            r == self.memory_type,
    {
        self.memory_type
    }

    pub fn physical_start(&self) -> (r: u64)
        ensures
            r == self.physical_start,
    {
        self.physical_start
    }

    pub fn number_of_pages(&self) -> (r: u64)
        ensures
            r == self.number_of_pages,
    {
        self.number_of_pages
    }
}

/// The memory map handed over by the firmware, as a list of descriptors.
pub struct MemoryMapHolder {
    descriptors: Vec<EfiMemoryDescriptor>,
}

impl View for MemoryMapHolder {
    type V = Seq<EfiMemoryDescriptor>;

    closed spec fn view(&self) -> Seq<EfiMemoryDescriptor> {
        self.descriptors@
    }
}

impl MemoryMapHolder {
    /// An empty memory map.
    pub fn new() -> (r: MemoryMapHolder)
        ensures
            r@ == Seq::<EfiMemoryDescriptor>::empty(),
    {
        MemoryMapHolder { descriptors: Vec::new() }
    }

    /// Appends a descriptor at the end of the map.
    pub fn push(&mut self, desc: EfiMemoryDescriptor)
        ensures
            final(self)@ == old(self)@.push(desc),
    {
        self.descriptors.push(desc);
    }

    /// The descriptors, in map order.
    pub fn descriptors(&self) -> (r: &Vec<EfiMemoryDescriptor>)
        ensures
            r@ == self@,
    {
        &self.descriptors
    }
}

} // verus!
