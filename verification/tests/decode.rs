use elf_decode::file::File;
use elf_decode::model::ElfError;
use elf_decode::strtab::get_elf_string;


fn expect_err(r: Result<File, ElfError>) -> ElfError {
    match r {
        Err(e) => e,
        Ok(_) => panic!("decode unexpectedly succeeded"),
    }
}

const LE: bool = true;
const BE: bool = false;

fn push_u16(v: &mut Vec<u8>, x: u16, le: bool) {
    if le {
        v.extend_from_slice(&x.to_le_bytes());
    } else {
        v.extend_from_slice(&x.to_be_bytes());
    }
}

fn push_u32(v: &mut Vec<u8>, x: u32, le: bool) {
    if le {
        v.extend_from_slice(&x.to_le_bytes());
    } else {
        v.extend_from_slice(&x.to_be_bytes());
    }
}

fn push_u64(v: &mut Vec<u8>, x: u64, le: bool) {
    if le {
        v.extend_from_slice(&x.to_le_bytes());
    } else {
        v.extend_from_slice(&x.to_be_bytes());
    }
}

struct Rec64 {
    name_off: u32,
    shtype: u32,
    flags: u64,
    addr: u64,
    offset: u64,
    size: u64,
    link: u32,
    info: u32,
    addralign: u64,
    entsize: u64,
}

fn zero_rec64() -> Rec64 {
    Rec64 {
        name_off: 0,
        shtype: 0,
        flags: 0,
        addr: 0,
        offset: 0,
        size: 0,
        link: 0,
        info: 0,
        addralign: 0,
        entsize: 0,
    }
}

/// A 64-bit header (64 bytes) followed by nothing; the section-header table
/// offset, count and string-table index are the caller's.
fn ehdr64(le: bool, entry: u64, shoff: u64, shnum: u16, shstrndx: u16) -> Vec<u8> {
    let mut v = vec![0x7f, b'E', b'L', b'F', 2, if le { 1 } else { 2 }, 1, 0, 0];
    v.resize(16, 0);
    push_u16(&mut v, 2, le); // type
    push_u16(&mut v, 0x3e, le); // machine
    push_u32(&mut v, 1, le); // version
    push_u64(&mut v, entry, le);
    push_u64(&mut v, 0, le); // phoff
    push_u64(&mut v, shoff, le);
    push_u32(&mut v, 0, le); // flags
    push_u16(&mut v, 64, le); // ehsize
    push_u16(&mut v, 0, le); // phentsize
    push_u16(&mut v, 0, le); // phnum
    push_u16(&mut v, 64, le); // shentsize
    push_u16(&mut v, shnum, le);
    push_u16(&mut v, shstrndx, le);
    assert_eq!(v.len(), 64);
    v
}

fn push_rec64(v: &mut Vec<u8>, r: &Rec64, le: bool) {
    push_u32(v, r.name_off, le);
    push_u32(v, r.shtype, le);
    push_u64(v, r.flags, le);
    push_u64(v, r.addr, le);
    push_u64(v, r.offset, le);
    push_u64(v, r.size, le);
    push_u32(v, r.link, le);
    push_u32(v, r.info, le);
    push_u64(v, r.addralign, le);
    push_u64(v, r.entsize, le);
}

/// The fixture of the well-formed scenario: one ".text" section of 16 bytes at
/// offset 64, plus the ".shstrtab" string table.
fn text_fixture(le: bool) -> Vec<u8> {
    let strtab: &[u8] = b"\0.text\0.shstrtab\0";
    // layout: header 0..64, .text 64..80, strtab 80..97, sh table at 97
    let mut v = ehdr64(le, 0x401000, 97, 2, 1);
    for i in 0..16u8 {
        v.push(i);
    }
    v.extend_from_slice(strtab);
    assert_eq!(v.len(), 97);
    let text = Rec64 {
        name_off: 1,
        shtype: 1,
        flags: 6,
        addr: 0x401000,
        offset: 64,
        size: 16,
        link: 0,
        info: 0,
        addralign: 16,
        entsize: 0,
    };
    push_rec64(&mut v, &text, le);
    let names = Rec64 { name_off: 7, shtype: 3, offset: 80, size: 17, ..zero_rec64() };
    push_rec64(&mut v, &names, le);
    v
}

#[test]
fn header_fields_match_bytes() {
    let bytes = text_fixture(LE);
    let f = File::parse(&bytes).unwrap();
    let h = f.header();
    assert_eq!(h.class, 2);
    assert_eq!(h.data, 1);
    assert_eq!(h.version, 1);
    assert_eq!(h.os_abi, 0);
    assert_eq!(h.abi_version, 0);
    assert_eq!(h.elf_type, 2);
    assert_eq!(h.machine, 0x3e);
    assert_eq!(h.entrypoint, 0x401000);
}

#[test]
fn text_section_lookup() {
    let bytes = text_fixture(LE);
    let f = File::parse(&bytes).unwrap();
    assert_eq!(f.sections().len(), 2);
    let sec = f.get_section(".text").expect("named section");
    assert_eq!(sec.header().name, ".text");
    assert_eq!(sec.data().len(), 16);
    assert_eq!(sec.data().as_slice(), &bytes[64..80]);
    assert_eq!(sec.header().offset, 64);
    assert_eq!(sec.header().size, 16);
    assert_eq!(sec.header().addr, 0x401000);
    assert_eq!(sec.header().flags, 6);
    assert!(f.get_section(".data").is_none());
}

#[test]
fn big_endian_fixture_decodes_alike() {
    let bytes = text_fixture(BE);
    let f = File::parse(&bytes).unwrap();
    assert_eq!(f.header().data, 2);
    assert_eq!(f.header().machine, 0x3e);
    assert_eq!(f.header().entrypoint, 0x401000);
    let sec = f.get_section(".shstrtab").expect("string table section");
    assert_eq!(sec.header().shtype, 3);
    assert_eq!(sec.data().len(), 17);
}

#[test]
fn payload_length_equals_declared_size() {
    let bytes = text_fixture(LE);
    let f = File::parse(&bytes).unwrap();
    for sec in f.sections() {
        assert_eq!(sec.data().len() as u64, sec.header().size);
    }
}

#[test]
fn endianness_changes_order_sensitive_fields() {
    // machine bytes 3e 00: 0x3e little-endian, 0x3e00 big-endian
    let mut bytes = ehdr64(LE, 0, 0, 0, 0);
    let f = File::parse(&bytes).unwrap();
    assert_eq!(f.header().machine, 0x3e);
    bytes[5] = 2; // same field bytes, big-endian selector
    let g = File::parse(&bytes).unwrap();
    assert_eq!(g.header().machine, 0x3e00);
}

#[test]
fn bad_magic_is_rejected() {
    let mut bytes = text_fixture(LE);
    bytes[1] = b'Q';
    assert_eq!(expect_err(File::parse(&bytes)), ElfError::InvalidMagic);
}

#[test]
fn short_input_is_rejected() {
    let bytes = vec![0x7f, b'E', b'L', b'F', 2, 1];
    assert_eq!(expect_err(File::parse(&bytes)), ElfError::UnexpectedEof);
}

#[test]
fn invalid_encoding_is_rejected() {
    let mut bytes = text_fixture(LE);
    bytes[5] = 3;
    assert_eq!(expect_err(File::parse(&bytes)), ElfError::InvalidEncoding);
}

#[test]
fn invalid_class_is_rejected() {
    let mut bytes = text_fixture(LE);
    bytes[4] = 9;
    assert_eq!(expect_err(File::parse(&bytes)), ElfError::InvalidClass);
}

#[test]
fn truncated_section_is_rejected() {
    let mut v = ehdr64(LE, 0, 64, 1, 0);
    let rec = Rec64 { offset: 64, size: 1000, ..zero_rec64() };
    push_rec64(&mut v, &rec, LE);
    assert_eq!(expect_err(File::parse(&v)), ElfError::UnexpectedEof);
}

#[test]
fn string_table_index_out_of_range() {
    let mut v = ehdr64(LE, 0, 64, 1, 5);
    let rec = zero_rec64();
    push_rec64(&mut v, &rec, LE);
    assert_eq!(expect_err(File::parse(&v)), ElfError::StringTableOutOfRange);
}

#[test]
fn no_sections_is_a_valid_empty_file() {
    let bytes = ehdr64(LE, 7, 0, 0, 0);
    let f = File::parse(&bytes).unwrap();
    assert_eq!(f.sections().len(), 0);
    assert_eq!(f.header().entrypoint, 7);
    assert!(f.get_section(".text").is_none());
}

#[test]
fn zero_size_section_has_empty_payload() {
    // a zero-size section whose declared offset lies past the end is still fine
    let mut v = ehdr64(LE, 0, 64, 1, 0);
    let rec = Rec64 { offset: 100_000, size: 0, ..zero_rec64() };
    push_rec64(&mut v, &rec, LE);
    let f = File::parse(&v).unwrap();
    assert_eq!(f.sections().len(), 1);
    assert_eq!(f.get_section("").unwrap().data().len(), 0);
}

#[test]
fn duplicate_names_collapse_to_the_later_section() {
    let strtab: &[u8] = b"\0.dup\0.shstrtab\0";
    // header 0..64, first payload 64..66, second payload 66..68, strtab 68..84
    let mut v = ehdr64(LE, 0, 84, 3, 2);
    v.extend_from_slice(&[0xaa, 0xab]);
    v.extend_from_slice(&[0xba, 0xbb]);
    v.extend_from_slice(strtab);
    assert_eq!(v.len(), 84);
    let first = Rec64 { name_off: 1, offset: 64, size: 2, ..zero_rec64() };
    let second = Rec64 { name_off: 1, offset: 66, size: 2, ..zero_rec64() };
    let names = Rec64 { name_off: 6, shtype: 3, offset: 68, size: 16, ..zero_rec64() };
    push_rec64(&mut v, &first, LE);
    push_rec64(&mut v, &second, LE);
    push_rec64(&mut v, &names, LE);
    let f = File::parse(&v).unwrap();
    assert_eq!(f.sections().len(), 2); // two distinct names among three records
    let dup = f.get_section(".dup").unwrap();
    assert_eq!(dup.data().as_slice(), &[0xba, 0xbb]); // the later record wins
}

#[test]
fn elf_string_scans_to_terminator() {
    let table = vec![0, b'a', b'b', 0, b'c'];
    assert_eq!(get_elf_string(&table, 1), "ab");
    assert_eq!(get_elf_string(&table, 0), "");
    assert_eq!(get_elf_string(&table, 4), "c"); // no terminator: up to the end
    assert_eq!(get_elf_string(&table, 5), "");
    assert_eq!(get_elf_string(&table, 99), "");
}

/// A 32-bit header (52 bytes): same field order, three 32-bit offset fields.
fn ehdr32(le: bool, entry: u32, shoff: u32, shnum: u16, shstrndx: u16) -> Vec<u8> {
    let mut v = vec![0x7f, b'E', b'L', b'F', 1, if le { 1 } else { 2 }, 1, 0, 0];
    v.resize(16, 0);
    push_u16(&mut v, 2, le);
    push_u16(&mut v, 3, le); // machine
    push_u32(&mut v, 1, le);
    push_u32(&mut v, entry, le);
    push_u32(&mut v, 0, le); // phoff
    push_u32(&mut v, shoff, le);
    push_u32(&mut v, 0, le); // flags
    push_u16(&mut v, 52, le); // ehsize
    push_u16(&mut v, 0, le);
    push_u16(&mut v, 0, le);
    push_u16(&mut v, 40, le); // shentsize
    push_u16(&mut v, shnum, le);
    push_u16(&mut v, shstrndx, le);
    assert_eq!(v.len(), 52);
    v
}

fn push_rec32(v: &mut Vec<u8>, r: &Rec64, le: bool) {
    push_u32(v, r.name_off, le);
    push_u32(v, r.shtype, le);
    push_u32(v, r.flags as u32, le);
    push_u32(v, r.addr as u32, le);
    push_u32(v, r.offset as u32, le);
    push_u32(v, r.size as u32, le);
    push_u32(v, r.link, le);
    push_u32(v, r.info, le);
    push_u32(v, r.addralign as u32, le);
    push_u32(v, r.entsize as u32, le);
}

#[test]
fn class32_fields_are_zero_extended() {
    // header 0..52, strtab 52..58, sh table at 58
    let strtab: &[u8] = b"\0.big\0";
    let mut v = ehdr32(LE, 0xffff_ffff, 58, 2, 1);
    v.extend_from_slice(strtab);
    assert_eq!(v.len(), 58);
    let big = Rec64 {
        name_off: 1,
        addr: 0x8000_0000,
        size: 0,
        flags: 0xffff_fff0,
        ..zero_rec64()
    };
    let names = Rec64 { name_off: 0, shtype: 3, offset: 52, size: 6, ..zero_rec64() };
    push_rec32(&mut v, &big, LE);
    push_rec32(&mut v, &names, LE);
    let f = File::parse(&v).unwrap();
    assert_eq!(f.header().class, 1);
    // zero-extension: the 32-bit values, not sign-extended, not truncated
    assert_eq!(f.header().entrypoint, 0xffff_ffffu64);
    let sec = f.get_section(".big").unwrap();
    assert_eq!(sec.header().addr, 0x8000_0000u64);
    assert_eq!(sec.header().flags, 0xffff_fff0u64);
}

#[test]
fn class32_big_endian_round_trip() {
    let bytes = ehdr32(BE, 0x0102_0304, 0, 0, 0);
    let f = File::parse(&bytes).unwrap();
    assert_eq!(f.header().entrypoint, 0x0102_0304);
    assert_eq!(f.header().machine, 3);
}
