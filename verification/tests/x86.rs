use wasabi::x86::{
    Entry, PageAttr, Table, TranslationResult, ATTR_MASK, PAGE_SIZE, TABLE_ENTRIES,
};

type Pt = Table<1, 12, [u8; PAGE_SIZE]>;
type Pd = Table<2, 21, Pt>;

fn table_with(values: &[(usize, u64)]) -> Pd {
    let mut raw = [0u64; TABLE_ENTRIES];
    for (i, v) in values {
        raw[*i] = *v;
    }
    Table::new(core::array::from_fn(|i| Entry::new(raw[i])))
}

#[test]
fn page_attr_bits() {
    assert_eq!(PageAttr::NotPresent.bits(), 0);
    assert_eq!(PageAttr::ReadWritekernel.bits(), 0b00011);
    assert_eq!(PageAttr::ReadWriteIo.bits(), 0b11011);
}

#[test]
fn entry_flags() {
    let e: Entry<1, 12, [u8; PAGE_SIZE]> = Entry::new(0x0000_0000_0020_3007);
    assert_eq!(e.read_value(), 0x0000_0000_0020_3007);
    assert!(e.is_presenet());
    assert!(e.is_writable());
    assert!(e.is_user());
    let e: Entry<1, 12, [u8; PAGE_SIZE]> = Entry::new(0x0000_0000_0020_3001);
    assert!(e.is_presenet());
    assert!(!e.is_writable());
    assert!(!e.is_user());
    let e: Entry<1, 12, [u8; PAGE_SIZE]> = Entry::new(0x0000_0000_0020_3006);
    assert!(!e.is_presenet());
    assert!(e.is_writable());
    assert!(e.is_user());
}

#[test]
fn entry_table_clears_the_attribute_bits() {
    let e: Entry<2, 21, Pt> = Entry::new(0x0000_0000_0020_3FFF);
    assert_eq!(e.table(), Ok(0x0000_0000_0020_3000));
    let e: Entry<2, 21, Pt> = Entry::new(0xFFFF_FFFF_FFFF_F001);
    assert_eq!(e.table(), Ok(0xFFFF_FFFF_FFFF_F000));
    assert_eq!(e.table().unwrap() & ATTR_MASK, 0);
}

#[test]
fn entry_table_of_absent_entry_is_an_error() {
    let e: Entry<2, 21, Pt> = Entry::new(0x0000_0000_0020_3FFE);
    assert_eq!(e.table(), Err("Page Not Found"));
    let e: Entry<2, 21, Pt> = Entry::new(0);
    assert_eq!(e.table(), Err("Page Not Found"));
}

#[test]
fn next_level_of_present_entry() {
    let t = table_with(&[
        (0, 0x1003),
        (7, 0x7_2000 | PageAttr::ReadWriteIo.bits()),
        (511, 0xABC0_0FFF),
    ]);
    assert_eq!(t.next_level(0), Some(0x1000));
    assert_eq!(t.next_level(7), Some(0x7_2000));
    assert_eq!(t.next_level(511), Some(0xABC0_0000));
}

#[test]
fn next_level_of_absent_entry_or_bad_index() {
    let t = table_with(&[(0, 0x1003), (3, 0x5000)]);
    assert_eq!(t.next_level(1), None);
    assert_eq!(t.next_level(3), None);
    assert_eq!(t.next_level(512), None);
    assert_eq!(t.next_level(usize::MAX), None);
}

#[test]
fn translation_results_compare_by_kind_and_address() {
    assert_eq!(
        TranslationResult::PageMapped4K { phys: 0x1000 },
        TranslationResult::PageMapped4K { phys: 0x1000 }
    );
    assert_ne!(
        TranslationResult::PageMapped4K { phys: 0x1000 },
        TranslationResult::PageMapped2M { phys: 0x1000 }
    );
    assert_ne!(
        TranslationResult::PageMapped1G { phys: 0x1000 },
        TranslationResult::PageMapped1G { phys: 0x2000 }
    );
}

#[test]
fn flag_letters_name_each_attribute() {
    let e: Entry<1, 12, [u8; PAGE_SIZE]> = Entry::new(0x1007);
    assert_eq!(e.flag_letters(), ['p', 'W', 'U']);
    let e: Entry<1, 12, [u8; PAGE_SIZE]> = Entry::new(0x1000);
    assert_eq!(e.flag_letters(), ['N', 'R', 'S']);
    let e: Entry<1, 12, [u8; PAGE_SIZE]> = Entry::new(0x1005);
    assert_eq!(e.flag_letters(), ['p', 'R', 'U']);
    let e: Entry<1, 12, [u8; PAGE_SIZE]> = Entry::new(PageAttr::ReadWritekernel.bits());
    assert_eq!(e.flag_letters(), ['p', 'W', 'S']);
}

#[test]
fn present_indices_lists_present_entries_in_order() {
    let t = table_with(&[(511, 0x3001), (0, 0x1003), (3, 0x5000), (7, 0x7001), (8, 0x2)]);
    assert_eq!(t.present_indices(), vec![0, 7, 511]);
    let t = table_with(&[]);
    assert_eq!(t.present_indices(), Vec::<usize>::new());
}

#[test]
fn entry_value_reads_the_raw_entry() {
    let t = table_with(&[(0, 0x1003), (3, 0x5000)]);
    assert_eq!(t.entry_value(0), 0x1003);
    assert_eq!(t.entry_value(3), 0x5000);
    assert_eq!(t.entry_value(4), 0);
}
