use fat12boot::Gdt;
use fat12boot::GdtEntry;
use fat12boot::IdtEntry;
use fat12boot::CODE_SELECTOR;
use fat12boot::DATA_SELECTOR;

#[test]
fn gdt_entry_packs_flat_code_segment() {
    let access = GdtEntry::VALID_SEGMENT | GdtEntry::PRIVILEGE_LEVEL_RING0
        | GdtEntry::CODE_SEGMENT | GdtEntry::CODE_READ_ALLOWED;
    let flags = GdtEntry::FLAG_GRANULARITY | GdtEntry::FLAG_SEGMENT_32BIT;
    let e = GdtEntry::new(0, 0xFFFFFFFF, access, flags);
    assert_eq!(e.base_low, 0);
    assert_eq!(e.base_mid, 0);
    assert_eq!(e.base_high, 0);
    assert_eq!(e.limit_low, 0xFFFF);
    assert_eq!(e.access, 0x9A);
    assert_eq!(e.flags, 0xCF); // granularity + 32-bit above, limit 16-19 below
}

#[test]
fn gdt_entry_splits_base_across_fields() {
    let e = GdtEntry::new(0x12345678, 0xABCDE, 0, 0);
    assert_eq!(e.base_low, 0x5678);
    assert_eq!(e.base_mid, 0x34);
    assert_eq!(e.base_high, 0x12);
    assert_eq!(e.limit_low, 0xBCDE);
    assert_eq!(e.flags, 0x0A); // the limit's top nibble
}

#[test]
fn gdt_record_matches_entry_packing() {
    let access = Gdt::new(0, 0, 0x92, 0).access;
    assert_eq!(access, 0x92);
    let g = Gdt::new(0xCAFEBABE, 0xFFFFF, 0x92, 0xC0);
    let e = GdtEntry::new(0xCAFEBABE, 0xFFFFF, 0x92, 0xC0);
    assert_eq!(g.limit_low, e.limit_low);
    assert_eq!(g.base_low, e.base_low);
    assert_eq!(g.base_mid, e.base_mid);
    assert_eq!(g.access, e.access);
    assert_eq!(g.flags, e.flags);
    assert_eq!(g.base_high, e.base_high);
}

#[test]
fn idt_entry_packs_interrupt_gate() {
    let e = IdtEntry::new(
        0xDEADBEEF,
        IdtEntry::FLAG_GATE_INTERRUPT_32BIT,
        IdtEntry::PRIVILEGE_LEVEL_RING0,
    );
    assert_eq!(e.offset_low, 0xBEEF);
    assert_eq!(e.offset_high, 0xDEAD);
    assert_eq!(e.flags, 0x8E); // present + 32-bit interrupt gate
    assert_eq!(e.segment_selector, CODE_SELECTOR);
    assert_eq!(e.reserved, 0);
}

#[test]
fn idt_entry_ring3_trap_gate() {
    let e = IdtEntry::new(0x1000, IdtEntry::FLAG_GATE_TRAP_32BIT, IdtEntry::PRIVILEGE_LEVEL_RING3);
    assert_eq!(e.flags, 0x80 | 0x60 | 0x0F);
    assert_eq!(e.offset_low, 0x1000);
    assert_eq!(e.offset_high, 0);
}

#[test]
fn selectors_index_the_flat_segments() {
    assert_eq!(CODE_SELECTOR, 8);
    assert_eq!(DATA_SELECTOR, 16);
}

#[test]
fn idt_table_set_and_get() {
    let mut idt = fat12boot::Idt::empty();
    assert_eq!(idt.get(42).flags, 0); // not present
    let gate = IdtEntry::new(0x8000, IdtEntry::FLAG_GATE_INTERRUPT_32BIT, 0);
    idt.set(42, gate);
    assert_eq!(idt.get(42), gate);
    assert_eq!(idt.get(41).flags, 0);
    assert_eq!(idt.get(43).flags, 0);
}

#[test]
fn table_registers_hold_size_and_address() {
    let entries = [GdtEntry::new(0, 0, 0, 0); 3];
    let d = fat12boot::GdtDescriptor::new(&entries, 0x800);
    assert_eq!(d.size, 3 * 8 - 1);
    assert_eq!(d.addr, 0x800);
    let gates = [IdtEntry::new(0, 0, 0); 256];
    let id = fat12boot::IdtDescriptor::new(&gates, 0x1000);
    assert_eq!(id.size, 256 * 8 - 1);
    assert_eq!(id.addr, 0x1000);
}
