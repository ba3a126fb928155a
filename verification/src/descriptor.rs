//! Packed descriptor records for the processor's segment and interrupt
//! tables.
//!
//! The hardware reads these tables as packed little-endian records whose
//! fields are scattered across bit ranges; the constructors here take the
//! plain base/limit/flag values and place every bit where the processor
//! expects it.

use vstd::prelude::*;

verus! {

/// Selector of the flat 32-bit code segment: the second table entry.
pub const CODE_SELECTOR: u16 = 8;

/// Selector of the flat 32-bit data segment: the third table entry.
pub const DATA_SELECTOR: u16 = 16;

/// One packed segment-table entry.
#[derive(Clone, Copy, Debug, PartialEq, Eq, Structural)]
pub struct GdtEntry {
    /// Limit bits 0-15.
    pub limit_low: u16,
    /// Base bits 0-15.
    pub base_low: u16,
    /// Base bits 16-23.
    pub base_mid: u8,
    /// Present flag, privilege ring, type, direction and access bits.
    pub access: u8,
    /// Granularity and size flags above, limit bits 16-19 below.
    pub flags: u8,
    /// Base bits 24-31.
    pub base_high: u8,
}

impl GdtEntry {
    /// Marks a valid segment that can be accessed.
    pub const VALID_SEGMENT: u8 = 0x80;

    /// Privilege level required to access the segment: ring 0.
    pub const PRIVILEGE_LEVEL_RING0: u8 = 0x00;

    /// Privilege level required to access the segment: ring 3.
    pub const PRIVILEGE_LEVEL_RING3: u8 = 0x60;

    /// Marks a system segment.
    pub const TASK_SEGMENT: u8 = 0x00;

    /// Marks a data segment.
    pub const DATA_SEGMENT: u8 = 0x10;

    /// Marks an executable code segment.
    pub const CODE_SEGMENT: u8 = 0x18;

    /// Lets the code segment be read, not only executed.
    pub const CODE_READ_ALLOWED: u8 = 0x02;

    /// Lets the data segment be written.
    pub const DATA_WRITE_ALLOWED: u8 = 0x02;

    /// Pre-set accessed bit, for read-only backing memory.
    pub const ACCESSED: u8 = 0x01;

    /// Scales the limit by 4 KiB pages.
    pub const FLAG_GRANULARITY: u8 = 0x80;

    /// Marks a 32-bit segment.
    pub const FLAG_SEGMENT_32BIT: u8 = 0x40;

    /// Marks a 64-bit segment.
    pub const FLAG_SEGMENT_64BIT: u8 = 0x20;

    /// Packs a segment descriptor: the 32-bit base split over three fields,
    /// the 20-bit limit split over two, the access byte as given, and the
    /// high flag nibble joined with the limit's top four bits.
    pub fn new(base: u32, limit: u32, access: u8, flags: u8) -> (e: GdtEntry)
        ensures
            e.base_low == (base & 0xFFFF) as u16,
            e.base_mid == ((base >> 16u32) & 0xFF) as u8,
            e.base_high == ((base >> 24u32) & 0xFF) as u8,
            e.limit_low == (limit & 0xFFFF) as u16,
            e.access == access,
            e.flags == (flags & 0xF0) | (((limit >> 16u32) & 0x0F) as u8),
    {
        let base_low: u16 = (base & 0x0000FFFF) as u16;
        let base_mid: u8 = ((base & 0x00FF0000) >> 16u32) as u8;
        let base_high: u8 = ((base & 0xFF000000) >> 24u32) as u8;

        let limit_low: u16 = (limit & 0x0000FFFF) as u16;
        let limit_high: u8 = ((limit & 0x000F0000) >> 16u32) as u8;
        let flags = (flags & 0xF0) | limit_high;
        proof {
            assert(((base & 0x00FF0000) >> 16u32) as u8 == ((base >> 16u32) & 0xFF) as u8)
                by (bit_vector);
            assert(((base & 0xFF000000) >> 24u32) as u8 == ((base >> 24u32) & 0xFF) as u8)
                by (bit_vector);
            assert(((limit & 0x000F0000) >> 16u32) as u8 == ((limit >> 16u32) & 0x0F) as u8)
                by (bit_vector);
        }
        GdtEntry { limit_low, base_low, base_mid, access, flags, base_high }
    }
}

/// One packed segment-table entry, with the fields laid out exactly as
/// `GdtEntry` but carried as a standalone record.
#[derive(Clone, Copy, Debug, PartialEq, Eq, Structural)]
pub struct Gdt {
    /// Limit bits 0-15.
    pub limit_low: u16,
    /// Base bits 0-15.
    pub base_low: u16,
    /// Base bits 16-23.
    pub base_mid: u8,
    /// Present flag, privilege ring, type, direction and access bits.
    pub access: u8,
    /// Granularity and size flags above, limit bits 16-19 below.
    pub flags: u8,
    /// Base bits 24-31.
    pub base_high: u8,
}

impl Gdt {
    /// Packs a segment descriptor from its base, limit, access byte and
    /// flag nibble.
    pub fn new(base: u32, limit: u32, access: u8, flags: u8) -> (e: Gdt)
        ensures
            e.base_low == (base & 0xFFFF) as u16,
            e.base_mid == ((base >> 16u32) & 0xFF) as u8,
            e.base_high == ((base >> 24u32) & 0xFF) as u8,
            e.limit_low == (limit & 0xFFFF) as u16,
            e.access == access,
            e.flags == (flags & 0xF0) | (((limit >> 16u32) & 0x0F) as u8),
    {
        let entry = GdtEntry::new(base, limit, access, flags);
        Gdt {
            limit_low: entry.limit_low,
            base_low: entry.base_low,
            base_mid: entry.base_mid,
            access: entry.access,
            flags: entry.flags,
            base_high: entry.base_high,
        }
    }
}

/// One packed interrupt-table entry.
#[derive(Clone, Copy, Debug, PartialEq, Eq, Structural)]
pub struct IdtEntry {
    /// Handler address bits 0-15.
    pub offset_low: u16,
    /// The code-segment selector the handler runs under.
    pub segment_selector: u16,
    /// Reserved byte, always zero.
    pub reserved: u8,
    /// Gate type below, privilege ring and present bit above.
    pub flags: u8,
    /// Handler address bits 16-31.
    pub offset_high: u16,
}

impl IdtEntry {
    /// A 32-bit interrupt gate: other interrupts stay disabled while the
    /// handler runs.
    pub const FLAG_GATE_INTERRUPT_32BIT: u8 = 0x0E;

    /// A 32-bit trap gate: the handler itself may be interrupted.
    pub const FLAG_GATE_TRAP_32BIT: u8 = 0x0F;

    /// Privilege level required to call the routine: ring 0.
    pub const PRIVILEGE_LEVEL_RING0: u8 = 0x00;

    /// Privilege level required to call the routine: ring 3.
    pub const PRIVILEGE_LEVEL_RING3: u8 = 0x60;

    /// Packs an interrupt gate for the handler at `offset`: the address
    /// split over the two halves, the present bit set, and the ring and
    /// gate type merged into the flags.
    pub fn new(offset: u32, gate_type: u8, ring: u8) -> (e: IdtEntry)
        ensures
            e.offset_low == (offset & 0xFFFF) as u16,
            e.offset_high == (offset >> 16u32) as u16,
            e.flags == 0x80u8 | ring | gate_type,
            e.segment_selector == CODE_SELECTOR,
            e.reserved == 0,
    {
        let offset_low: u16 = (offset & 0xFFFF) as u16;
        let offset_high: u16 = (offset >> 16u32) as u16;
        let flags: u8 = 0x80 | ring | gate_type;
        IdtEntry { offset_low, offset_high, segment_selector: CODE_SELECTOR, reserved: 0, flags }
    }
}

/// The interrupt table: one gate record per interrupt number.
pub struct Idt {
    entries: [IdtEntry; 256],
}

impl Idt {
    /// The interrupt records, in interrupt-number order.
    pub closed spec fn spec_entries(self) -> Seq<IdtEntry> {
        self.entries@
    }

    /// A table with no valid gates: every record zeroed, so no present bit
    /// is set.
    pub fn empty() -> (t: Idt)
        ensures
            t.spec_entries().len() == 256,
            forall|i: int|
                0 <= i < 256 ==> t.spec_entries()[i] == (IdtEntry {
                    offset_low: 0,
                    segment_selector: 0,
                    reserved: 0,
                    flags: 0,
                    offset_high: 0,
                }),
    {
        let zero = IdtEntry {
            offset_low: 0,
            segment_selector: 0,
            reserved: 0,
            flags: 0,
            offset_high: 0,
        };
        Idt { entries: [zero; 256] }
    }

    /// Associates the given record with the given interrupt number.
    pub fn set(&mut self, interrupt: u8, entry: IdtEntry)
        ensures
            final(self).spec_entries() == old(self).spec_entries().update(interrupt as int, entry),
    {
        self.entries[interrupt as usize] = entry;
    }

    /// The record stored for the given interrupt number.
    pub fn get(&self, interrupt: u8) -> (e: IdtEntry)
        ensures
            e == self.spec_entries()[interrupt as int],
    {
        self.entries[interrupt as usize]
    }
}

/// The value loaded into the segment-table register: the table's byte size
/// minus one, and the address where the table lies in memory.
#[derive(Clone, Copy, Debug, PartialEq, Eq, Structural)]
pub struct GdtDescriptor {
    /// The table's last byte offset: its size in bytes minus one.
    pub size: u16,
    /// The address of the table in memory.
    pub addr: usize,
}

impl GdtDescriptor {
    /// Describes the segment table with the given entries, lying at the
    /// given address. Each packed entry occupies eight bytes.
    pub fn new(gdt: &[GdtEntry], addr: usize) -> (d: GdtDescriptor)
        requires
            1 <= gdt@.len() <= 0x2000,
        ensures
            d.size == gdt@.len() * 8 - 1,
            d.addr == addr,
    {
        GdtDescriptor { size: (gdt.len() * 8 - 1) as u16, addr }
    }
}

/// The value loaded into the interrupt-table register: the table's byte
/// size minus one, and the address where the table lies in memory.
#[derive(Clone, Copy, Debug, PartialEq, Eq, Structural)]
pub struct IdtDescriptor {
    /// The table's last byte offset: its size in bytes minus one.
    pub size: u16,
    /// The address of the table in memory.
    pub addr: usize,
}

impl IdtDescriptor {
    /// Describes the interrupt table with the given gate records, lying at
    /// the given address. Each packed record occupies eight bytes.
    pub fn new(idt: &[IdtEntry], addr: usize) -> (d: IdtDescriptor)
        requires
            1 <= idt@.len() <= 0x2000,
        ensures
            d.size == idt@.len() * 8 - 1,
            d.addr == addr,
    {
        IdtDescriptor { size: (idt.len() * 8 - 1) as u16, addr }
    }
}

} // verus!
