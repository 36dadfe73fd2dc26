use wasabi::print::hexdump_bytes;
use wasabi::x86::{Entry, PageAttr, Table, TranslationResult, PML4, PT};

fn text(v: Vec<char>) -> String {
    v.into_iter().collect()
}

#[test]
fn hexdump_full_and_partial_lines() {
    let mut bytes: Vec<u8> = b"Hello, World! 0123456789abcdef".to_vec();
    bytes.push(0x7f);
    bytes.push(0x00);
    bytes.extend_from_slice(&[0x41, 0x7f, 0x0a]);
    let out = text(hexdump_bytes(&bytes));
    let expected = String::new()
        + "00000000: 48656c6c6f2c20576f726c6421203031|Hello, World! 01|\n"
        + "00000010: 32333435363738396162636465667f00|23456789abcdef..|\n"
        + "00000020: 417f0a"
        + "                          "
        + "|A..|\n";
    assert_eq!(out, expected);
}

#[test]
fn hexdump_empty_and_exact() {
    assert_eq!(text(hexdump_bytes(&[])), "");
    let bytes = [0u8; 16];
    assert_eq!(
        text(hexdump_bytes(&bytes)),
        "00000000: 00000000000000000000000000000000|................|\n"
    );
}

#[test]
fn hexdump_offsets_grow_by_16() {
    let bytes = [0x20u8; 40];
    let out = text(hexdump_bytes(&bytes));
    let lines: Vec<&str> = out.lines().collect();
    assert_eq!(lines.len(), 3);
    assert!(lines[1].starts_with("00000010: "));
    assert!(lines[2].starts_with("00000020: 2020202020202020                "));
}

#[test]
fn page_attr_bits() {
    assert_eq!(PageAttr::NotPresent.bits(), 0);
    assert_eq!(PageAttr::ReadWriteKernel.bits(), 3);
    assert_eq!(PageAttr::ReadWriteIo.bits(), 0b11011);
}

#[test]
fn translation_result_compares_by_value() {
    assert_eq!(TranslationResult::PageMapped4K { phys: 5 }, TranslationResult::PageMapped4K { phys: 5 });
    assert_ne!(TranslationResult::PageMapped4K { phys: 5 }, TranslationResult::PageMapped2M { phys: 5 });
}

#[test]
fn entry_flags_and_table() {
    let e: Entry<1, 12, [u8; 4096]> = Entry::new(0x1234_5007);
    assert_eq!(e.read_value(), 0x1234_5007);
    assert!(e.is_present());
    assert!(e.is_writable());
    assert!(e.is_user());
    assert_eq!(e.table(), Ok(0x1234_5000));
    let n: Entry<1, 12, [u8; 4096]> = Entry::new(0x1234_5006);
    assert!(!n.is_present());
    assert_eq!(n.table(), Err("Page Not Found"));
}

#[test]
fn entry_format() {
    let e: Entry<4, 39, u8> = Entry::new(0x3003);
    let addr = 0x1000usize;
    let digits = (usize::BITS / 4) as usize;
    let expected = format!("L4Entry @ 0x{:0w$x} {{ 0x0000000000003003 PWS}}", addr, w = digits);
    assert_eq!(text(e.format(addr)), expected);
    let n: Entry<2, 21, u8> = Entry::new(0x4);
    let expected = format!("L2Entry @ 0x{:0w$x} {{ 0x0000000000000004 NRU}}", 8usize, w = digits);
    assert_eq!(text(n.format(8)), expected);
}

#[test]
fn table_next_level() {
    let mut values = [0u64; 512];
    values[0] = 0x5000 | 1;
    values[3] = 0x6000 | 2;
    values[511] = 0x7fff_f000 | 3;
    let t: PT = Table::from_values(&values);
    assert_eq!(t.next_level(0), Some(0x5000));
    assert_eq!(t.next_level(3), None);
    assert_eq!(t.next_level(511), Some(0x7fff_f000));
    assert_eq!(t.next_level(512), None);
    assert_eq!(t.next_level(usize::MAX), None);
}

#[test]
fn table_format_lists_present_entries() {
    let mut values = [0u64; 512];
    values[1] = 0x5003;
    values[100] = 0x6001;
    let t: PML4 = Table::from_values(&values);
    let addr = 0x10_0000usize;
    let d = (usize::BITS / 4) as usize;
    let expected = format!(
        "L4Table @ 0x{:0d$x} {{\n entry[  1] = L4Entry @ 0x{:0d$x} {{ 0x0000000000005003 PWS}}\n entry[100] = L4Entry @ 0x{:0d$x} {{ 0x0000000000006001 PRS}}\n}}\n",
        addr,
        addr + 8,
        addr + 800,
        d = d
    );
    assert_eq!(text(t.format(addr)), expected);
}
