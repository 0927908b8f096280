use macho_symbols::file_lookup::scan_signature;
use macho_symbols::macho::{
    fileoff_to_vmaddr, pointer_size, scan_macho_page, FileOffsetMap, MachOFormatOffsets, NameError,
    PointerSize, Symbol, Symbols, CSTR, MH_CIGAM_32, MH_CIGAM_64, MH_MAGIC_32, MH_MAGIC_64,
};
use macho_symbols::memory::{Process, ReadError, Region};

const IMAGE_BASE: u64 = 0x10000;
const IMAGE_LEN: usize = 0x3000;
const SIG_OFF: usize = 0x2100;
const SIG_LIVE_OFF: usize = 0x2800;

fn put_u32(b: &mut [u8], at: usize, v: u32) {
    b[at..at + 4].copy_from_slice(&v.to_le_bytes());
}

fn put_u64(b: &mut [u8], at: usize, v: u64) {
    b[at..at + 8].copy_from_slice(&v.to_le_bytes());
}

fn put_str(b: &mut [u8], at: usize, s: &str) {
    b[at..at + s.len()].copy_from_slice(s.as_bytes());
    b[at + s.len()] = 0;
}

fn signature() -> Vec<u8> {
    (1u8..=20).collect()
}

/// An image whose header sits at file offset 0 and address `IMAGE_BASE`, with
/// one segment mapping file offset 0 there, and a symbol table of three
/// entries named "foobar", "main" and `third`.
fn image(with_symtab: bool, third: &str) -> Vec<u8> {
    let mut b = vec![0u8; IMAGE_LEN];
    put_u32(&mut b, 0, MH_MAGIC_64);
    put_u32(&mut b, 0x10, if with_symtab { 2 } else { 1 });
    // segment command
    put_u32(&mut b, 0x20, 0x19);
    put_u32(&mut b, 0x24, 0x48);
    put_u64(&mut b, 0x20 + 0x18, IMAGE_BASE);
    put_u64(&mut b, 0x20 + 0x28, 0);
    if with_symtab {
        // symbol table command
        put_u32(&mut b, 0x68, 0x2);
        put_u32(&mut b, 0x6c, 0x18);
        put_u32(&mut b, 0x68 + 0x08, 0x1000);
        put_u32(&mut b, 0x68 + 0x0c, 3);
        put_u32(&mut b, 0x68 + 0x10, 0x1800);
    }
    // symbol table entries: name offset, value
    put_u32(&mut b, 0x1000, 1);
    put_u64(&mut b, 0x1008, 0x2000);
    put_u32(&mut b, 0x1010, 8);
    put_u64(&mut b, 0x1018, 0x2010);
    put_u32(&mut b, 0x1020, 13);
    put_u64(&mut b, 0x1028, SIG_OFF as u64);
    // string table
    put_str(&mut b, 0x1800 + 1, "foobar");
    put_str(&mut b, 0x1800 + 8, "main");
    put_str(&mut b, 0x1800 + 13, third);
    b
}

fn process_of(data: Vec<u8>) -> Process {
    Process { regions: vec![Region { base: IMAGE_BASE, data }] }
}

/// Memory whose third symbol is named "zzzzzz", with the signature placed at a
/// spot other than the one the file gives.
fn live_process() -> Process {
    let mut data = image(true, "zzzzzz");
    data[SIG_LIVE_OFF..SIG_LIVE_OFF + 20].copy_from_slice(&signature());
    process_of(data)
}

/// The module's file: a prefix of other bytes, then the image, whose third
/// symbol is named "hidden" and has the signature at its file offset.
fn module_file() -> Vec<u8> {
    let mut img = image(true, "hidden");
    img[SIG_OFF..SIG_OFF + 20].copy_from_slice(&signature());
    let mut file = vec![0xabu8; 0x40];
    file.extend_from_slice(&img);
    file
}

fn range() -> (u64, u64) {
    (IMAGE_BASE - 0x800, 0x800 + IMAGE_LEN as u64)
}

#[test]
fn scan_finds_header_after_unaligned_start() {
    let p = live_process();
    assert_eq!(scan_macho_page(&p, range()), Some(IMAGE_BASE));
}

#[test]
fn scan_skips_unreadable_and_plain_pages() {
    let mut first = vec![0u8; 0x1000];
    put_u32(&mut first, 0, 0x12345678);
    let mut third = vec![0u8; 0x1000];
    put_u32(&mut third, 0, MH_CIGAM_64);
    let p = Process {
        regions: vec![
            Region { base: 0x20000, data: first },
            Region { base: 0x22000, data: third },
        ],
    };
    assert_eq!(scan_macho_page(&p, (0x20000, 0x3000)), Some(0x22000));
}

#[test]
fn scan_without_magic_finds_nothing() {
    let p = process_of(vec![0u8; IMAGE_LEN]);
    assert_eq!(scan_macho_page(&p, range()), None);
}

#[test]
fn scan_with_range_shorter_than_distance_to_page() {
    let p = live_process();
    assert_eq!(scan_macho_page(&p, (IMAGE_BASE - 0x800, 0x100)), None);
}

#[test]
fn scan_ignores_a_header_not_on_a_page_boundary() {
    let mut data = vec![0u8; IMAGE_LEN];
    put_u32(&mut data, 0x10, MH_MAGIC_64);
    let p = process_of(data);
    assert_eq!(scan_macho_page(&p, range()), None);
}

fn header_process(magic: u32) -> Process {
    let mut data = vec![0u8; 0x1000];
    put_u32(&mut data, 0, magic);
    Process { regions: vec![Region { base: 0x40000, data }] }
}

#[test]
fn pointer_size_classifies_each_magic() {
    let r = (0x40000, 0x1000);
    assert_eq!(pointer_size(&header_process(MH_MAGIC_64), r), Some(PointerSize::Bit64));
    assert_eq!(pointer_size(&header_process(MH_CIGAM_64), r), Some(PointerSize::Bit64));
    assert_eq!(pointer_size(&header_process(MH_MAGIC_32), r), Some(PointerSize::Bit32));
    assert_eq!(pointer_size(&header_process(MH_CIGAM_32), r), Some(PointerSize::Bit32));
    assert_eq!(pointer_size(&header_process(0xdeadbeef), r), None);
}

#[test]
fn format_offsets_follow_the_abi() {
    let o = MachOFormatOffsets::new();
    assert_eq!(o.number_of_commands, 0x10);
    assert_eq!(o.load_commands, 0x20);
    assert_eq!(o.command_size, 0x04);
    assert_eq!(o.symtab_offset, 0x08);
    assert_eq!(o.number_of_symbols, 0x0c);
    assert_eq!(o.strtab_offset, 0x10);
    assert_eq!(o.nlist_value, 0x08);
    assert_eq!(o.size_of_nlist_item, 0x10);
    assert_eq!(o.segcmd64_vmaddr, 0x18);
    assert_eq!(o.segcmd64_fileoff, 0x28);
}

#[test]
fn translation_through_two_segments() {
    let mut map = FileOffsetMap::new();
    map.insert(0, 0x1000);
    map.insert(0x2000, 0x4000);
    assert_eq!(fileoff_to_vmaddr(&map, 0x2500), 0x4500);
    assert_eq!(fileoff_to_vmaddr(&map, 0x500), 0x1500);
    let mut later = FileOffsetMap::new();
    later.insert(0x1000, 0x9000);
    assert_eq!(fileoff_to_vmaddr(&later, 0x0), 0x0);
}

#[test]
fn translation_uses_latest_entry_for_equal_offsets() {
    let mut map = FileOffsetMap::new();
    map.insert(0x100, 0x1000);
    map.insert(0x100, 0x7000);
    assert_eq!(fileoff_to_vmaddr(&map, 0x180), 0x7080);
}

#[test]
fn session_reads_the_symbol_table() {
    let p = live_process();
    let s = Symbols::new(&p, range()).expect("session");
    assert_eq!(s.page, IMAGE_BASE);
    assert_eq!(s.number_of_symbols, 3);
    assert_eq!(s.symtab_fileoff, 0x1000);
    assert_eq!(s.strtab_fileoff, 0x1800);
    assert_eq!(s.symtab_vmaddr, IMAGE_BASE + 0x1000);
    assert_eq!(s.strtab_vmaddr, IMAGE_BASE + 0x1800);
}

#[test]
fn session_needs_a_symbol_table_command() {
    let p = process_of(image(false, "main"));
    assert!(Symbols::new(&p, range()).is_none());
}

#[test]
fn session_needs_a_header() {
    let p = process_of(vec![0u8; IMAGE_LEN]);
    assert!(Symbols::new(&p, range()).is_none());
}

#[test]
fn iteration_is_bounded_and_restartable() {
    let p = live_process();
    let s = Symbols::new(&p, range()).unwrap();
    let first = s.iter(&p);
    let second = s.iter(&p);
    assert_eq!(first.len(), 3);
    assert_eq!(first, second);
    assert_eq!(first[0], Symbol { address: IMAGE_BASE + 0x2000, name_addr: IMAGE_BASE + 0x1801 });
    assert_eq!(first[1].address, IMAGE_BASE + 0x2010);
}

#[test]
fn iteration_skips_unreadable_entries() {
    let mut data = image(true, "main");
    // declare four symbols; the fourth entry lies past the mapped bytes
    put_u32(&mut data, 0x68 + 0x0c, 4);
    put_u32(&mut data, 0x68 + 0x08, IMAGE_LEN as u32 - 0x30);
    let p = process_of(data);
    let s = Symbols::new(&p, range()).unwrap();
    assert_eq!(s.number_of_symbols, 4);
    assert!(s.iter(&p).len() < 4);
}

#[test]
fn names_are_read_up_to_the_nul() {
    let p = live_process();
    let s = Symbols::new(&p, range()).unwrap();
    let syms = s.iter(&p);
    assert_eq!(syms[0].get_name::<CSTR>(&p), Ok(b"foobar".to_vec()));
    assert_eq!(syms[1].get_name::<CSTR>(&p), Ok(b"main".to_vec()));
    assert_eq!(syms[0].get_name::<4>(&p), Err(NameError::TooLong));
    let far = Symbol { address: 0, name_addr: 0x90000 };
    assert_eq!(far.get_name::<CSTR>(&p), Err(NameError::Unreadable));
}

#[test]
fn find_address_in_memory() {
    let p = live_process();
    let s = Symbols::new(&p, range()).unwrap();
    assert_eq!(s.find_address(&p, b"main", None), Some(IMAGE_BASE + 0x2010));
    assert_eq!(s.find_address(&p, b"foobar", None), Some(IMAGE_BASE + 0x2000));
}

#[test]
fn find_address_rejects_prefixes() {
    let p = live_process();
    let s = Symbols::new(&p, range()).unwrap();
    assert_eq!(s.find_address(&p, b"foo", None), None);
    assert_eq!(s.find_address(&p, b"mainx", None), None);
    let file = module_file();
    assert_eq!(s.find_address(&p, b"foo", Some(&file)), None);
    assert_eq!(s.find_address(&p, b"hid", Some(&file)), None);
    assert_eq!(s.find_address(&p, b"hiddenx", Some(&file)), None);
}

#[test]
fn find_address_through_the_file() {
    let p = live_process();
    let s = Symbols::new(&p, range()).unwrap();
    let file = module_file();
    assert_eq!(s.find_address(&p, b"hidden", None), None);
    assert_eq!(
        s.find_address(&p, b"hidden", Some(&file)),
        Some(IMAGE_BASE + SIG_LIVE_OFF as u64)
    );
    assert_eq!(s.find_in_file(&p, &file, b"hidden"), Some(IMAGE_BASE + SIG_LIVE_OFF as u64));
}

#[test]
fn find_address_prefers_memory() {
    let p = live_process();
    let s = Symbols::new(&p, range()).unwrap();
    let file = module_file();
    assert_eq!(s.find_address(&p, b"main", Some(&file)), Some(IMAGE_BASE + 0x2010));
}

#[test]
fn find_address_absent_everywhere() {
    let p = live_process();
    let s = Symbols::new(&p, range()).unwrap();
    let file = module_file();
    assert_eq!(s.find_address(&p, b"nowhere", Some(&file)), None);
}

#[test]
fn file_lookup_needs_the_header_in_the_file() {
    let p = live_process();
    let s = Symbols::new(&p, range()).unwrap();
    let file = vec![0u8; 0x4000];
    assert_eq!(s.find_in_file(&p, &file, b"hidden"), None);
}

#[test]
fn signature_scan_finds_first_occurrence() {
    let p = live_process();
    assert_eq!(
        scan_signature(&p, range(), &signature()),
        Some(IMAGE_BASE + SIG_LIVE_OFF as u64)
    );
    assert_eq!(scan_signature(&p, range(), &vec![0xee; 20]), None);
}

#[test]
fn reads_are_little_endian_and_fail_outside_regions() {
    let p = live_process();
    assert_eq!(p.read_u32(IMAGE_BASE, 0), Ok(MH_MAGIC_64));
    assert_eq!(p.read_u64(IMAGE_BASE, 0x38), Ok(IMAGE_BASE));
    assert_eq!(p.read_u32(IMAGE_BASE, IMAGE_LEN as u64 - 2), Err(ReadError::Unreadable));
    assert_eq!(p.read_bytes(IMAGE_BASE, 4, 0), Ok(vec![]));
}

#[test]
fn sections_refine_the_translation() {
    let mut b = vec![0u8; IMAGE_LEN];
    put_u32(&mut b, 0, MH_MAGIC_64);
    put_u32(&mut b, 0x10, 2);
    // segment command with one section record
    put_u32(&mut b, 0x20, 0x19);
    put_u32(&mut b, 0x24, 0x48 + 0x50);
    put_u64(&mut b, 0x20 + 0x18, IMAGE_BASE);
    put_u64(&mut b, 0x20 + 0x28, 0);
    put_u32(&mut b, 0x20 + 0x40, 1);
    put_u64(&mut b, 0x20 + 0x48 + 0x20, 0x70000);
    put_u32(&mut b, 0x20 + 0x48 + 0x30, 0x2000);
    // symbol table command
    put_u32(&mut b, 0xb8, 0x2);
    put_u32(&mut b, 0xbc, 0x18);
    put_u32(&mut b, 0xb8 + 0x08, 0x1000);
    put_u32(&mut b, 0xb8 + 0x0c, 1);
    put_u32(&mut b, 0xb8 + 0x10, 0x1800);
    put_u32(&mut b, 0x1000, 1);
    put_u64(&mut b, 0x1008, 0x2010);
    put_str(&mut b, 0x1801, "entry");
    let p = process_of(b);
    let s = Symbols::new(&p, range()).unwrap();
    assert_eq!(s.symtab_vmaddr, IMAGE_BASE + 0x1000);
    assert_eq!(s.find_address(&p, b"entry", None), Some(0x70010));
}

#[test]
fn name_read_needs_the_whole_buffer() {
    let p = Process { regions: vec![Region { base: 0x50000, data: vec![b'a', 0] }] };
    let sym = Symbol { address: 0, name_addr: 0x50000 };
    assert_eq!(sym.get_name::<2>(&p), Ok(b"a".to_vec()));
    assert_eq!(sym.get_name::<4>(&p), Err(NameError::Unreadable));
    assert_eq!(sym.get_name::<1>(&p), Err(NameError::TooLong));
}
