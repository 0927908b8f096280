//! Finding a Mach-O header in process memory and reading its symbol table.
use vstd::prelude::*;

use crate::memory::{Process, ReadError};

verus! {

pub const MH_MAGIC_32: u32 = 0xfeedface;
pub const MH_CIGAM_32: u32 = 0xcefaedfe;
pub const MH_MAGIC_64: u32 = 0xfeedfacf;
pub const MH_CIGAM_64: u32 = 0xcffaedfe;

/// Headers are looked for at the start of each page of this size.
pub const PAGE_SIZE: u64 = 0x1000;

/// Load command type of the symbol table command.
pub const LC_SYMTAB: u32 = 0x2;
/// Load command type of a 64-bit segment.
pub const LC_SEGMENT_64: u32 = 0x19;

/// Width of the pointers of an image.
#[derive(Debug, Clone, Copy, PartialEq, Eq, Structural)]
pub enum PointerSize {
    Bit32,
    Bit64,
}

pub open spec fn is_magic(v: nat) -> bool {
    v == MH_MAGIC_32 || v == MH_CIGAM_32 || v == MH_MAGIC_64 || v == MH_CIGAM_64
}

/// The pointer width that a header magic stands for, if it is one.
pub open spec fn classify_magic(v: nat) -> Option<PointerSize> {
    if v == MH_MAGIC_64 || v == MH_CIGAM_64 {
        Some(PointerSize::Bit64)
    } else if v == MH_MAGIC_32 || v == MH_CIGAM_32 {
        Some(PointerSize::Bit32)
    } else {
        None
    }
}

/// Whether the four bytes at `a` can be read and hold a Mach-O magic.
pub open spec fn magic_at(p: Process, a: int) -> bool {
    match p.read_int_spec(a, 4) {
        Some(v) => is_magic(v),
        None => false,
    }
}

/// Distance from `base` up to the next page boundary.
pub open spec fn distance_to_page(base: u64) -> int {
    (PAGE_SIZE - base % PAGE_SIZE) % PAGE_SIZE as int
}

/// Number of whole pages that start inside the range.
pub open spec fn page_count(range: (u64, u64)) -> int {
    if range.1 < distance_to_page(range.0) {
        0
    } else {
        (range.1 - distance_to_page(range.0)) / PAGE_SIZE as int
    }
}

/// Address of the `i`-th page boundary at or after the range's start.
pub open spec fn page_addr(range: (u64, u64), i: int) -> int {
    range.0 + distance_to_page(range.0) + i * PAGE_SIZE
}

/// Whether the `i`-th page of the range is an address that starts with a magic.
pub open spec fn header_page(p: Process, range: (u64, u64), i: int) -> bool {
    page_addr(range, i) <= u64::MAX && magic_at(p, page_addr(range, i))
}

/// The first page from the `i`-th on that starts with a magic.
pub open spec fn scan_from(p: Process, range: (u64, u64), i: int) -> Option<u64>
    decreases page_count(range) - i,
{
    if i < 0 || i >= page_count(range) {
        None
    } else if header_page(p, range, i) {
        Some(page_addr(range, i) as u64)
    } else {
        scan_from(p, range, i + 1)
    }
}

/// The first page boundary in `range` whose first four bytes are a Mach-O magic.
pub open spec fn scan_spec(p: Process, range: (u64, u64)) -> Option<u64> {
    scan_from(p, range, 0)
}

proof fn lemma_scan_finds(p: Process, range: (u64, u64), k: int, i: int)
    requires
        0 <= k <= i < page_count(range),
        header_page(p, range, i),
        forall|j: int| k <= j < i ==> !header_page(p, range, j),
    ensures
        scan_from(p, range, k) == Some(page_addr(range, i) as u64),
    decreases i - k,
{
    if k < i {
        lemma_scan_finds(p, range, k + 1, i);
    }
}

proof fn lemma_scan_none(p: Process, range: (u64, u64), k: int)
    requires
        0 <= k,
        forall|j: int| k <= j < page_count(range) ==> !header_page(p, range, j),
    ensures
        scan_from(p, range, k) is None,
    decreases page_count(range) - k,
{
    if k < page_count(range) {
        lemma_scan_none(p, range, k + 1);
    }
}

/// A page of the range that starts with a readable magic, with no such page
/// before it in the range, is the header that the scan returns.
pub proof fn lemma_scan_returns_first_header(p: Process, range: (u64, u64), h: u64)
    requires
        range.0 <= h,
        h as int + PAGE_SIZE <= range.0 + range.1,
        h % PAGE_SIZE == 0,
        magic_at(p, h as int),
        forall|a: int|
            range.0 <= a < h && a % PAGE_SIZE as int == 0 ==> !magic_at(p, a),
    ensures
        scan_spec(p, range) == Some(h),
{
    let d = distance_to_page(range.0);
    let i = (h - range.0 - d) / PAGE_SIZE as int;
    assert(page_addr(range, i) == h) by (nonlinear_arith)
        requires
            d == (PAGE_SIZE - range.0 % PAGE_SIZE) % PAGE_SIZE as int,
            i == (h - range.0 - d) / PAGE_SIZE as int,
            h % PAGE_SIZE == 0,
            range.0 <= h,
            page_addr(range, i) == range.0 + d + i * PAGE_SIZE,
    ;
    assert(0 <= i < page_count(range)) by (nonlinear_arith)
        requires
            d == (PAGE_SIZE - range.0 % PAGE_SIZE) % PAGE_SIZE as int,
            i == (h - range.0 - d) / PAGE_SIZE as int,
            h % PAGE_SIZE == 0,
            range.0 <= h,
            h + PAGE_SIZE <= range.0 + range.1,
            page_count(range) == if range.1 < d { 0 } else { (range.1 - d) / PAGE_SIZE as int },
    ;
    assert forall|j: int| 0 <= j < i implies !header_page(p, range, j) by {
        assert(range.0 <= page_addr(range, j) < h && page_addr(range, j) % PAGE_SIZE as int == 0)
            by (nonlinear_arith)
            requires
                d == (PAGE_SIZE - range.0 % PAGE_SIZE) % PAGE_SIZE as int,
                0 <= j < i,
                page_addr(range, i) == h,
                page_addr(range, j) == range.0 + d + j * PAGE_SIZE,
                page_addr(range, i) == range.0 + d + i * PAGE_SIZE,
        ;
    }
    lemma_scan_finds(p, range, 0, i);
}

/// A range in which no page boundary starts with a readable magic yields no header.
pub proof fn lemma_scan_without_magic(p: Process, range: (u64, u64))
    requires
        forall|a: int| range.0 <= a <= range.0 + range.1 ==> !magic_at(p, a),
    ensures
        scan_spec(p, range) is None,
{
    assert forall|j: int| 0 <= j < page_count(range) implies !header_page(p, range, j) by {
        let d = distance_to_page(range.0);
        assert(range.0 <= page_addr(range, j) <= range.0 + range.1) by (nonlinear_arith)
            requires
                d == (PAGE_SIZE - range.0 % PAGE_SIZE) % PAGE_SIZE as int,
                0 <= j < page_count(range),
                page_addr(range, j) == range.0 + d + j * PAGE_SIZE,
                page_count(range) == if range.1 < d { 0 } else { (range.1 - d) / PAGE_SIZE as int },
        ;
    }
    lemma_scan_none(p, range, 0);
}

/// Scans the range for a page that begins with a Mach-O magic number. A page
/// that cannot be read is passed over.
pub fn scan_macho_page(process: &Process, range: (u64, u64)) -> (r: Option<u64>)
    ensures
        r == scan_spec(*process, range),
{
    let (addr, len) = range;
    let distance: u64 = (PAGE_SIZE - addr % PAGE_SIZE) % PAGE_SIZE;
    if len < distance {
        return None;
    }
    let count: u64 = (len - distance) / PAGE_SIZE;
    let mut i: u64 = 0;
    while i < count
        invariant
            0 <= i <= count,
            count == page_count(range),
            distance == distance_to_page(range.0),
            addr == range.0,
            scan_from(*process, range, i as int) == scan_spec(*process, range),
        decreases count - i,
    {
        let a: u128 = addr as u128 + distance as u128 + i as u128 * 0x1000;
        assert(a == page_addr(range, i as int));
        if a <= u64::MAX as u128 {
            let found = match process.read_u32(a as u64, 0) {
                Ok(v) => v == MH_MAGIC_64 || v == MH_CIGAM_64 || v == MH_MAGIC_32 || v
                    == MH_CIGAM_32,
                Err(_) => false,
            };
            if found {
                return Some(a as u64);
            }
        }
        i += 1;
    }
    None
}

/// Classifies the module in `range` as a 32-bit or 64-bit image.
pub fn pointer_size(process: &Process, range: (u64, u64)) -> (r: Option<PointerSize>)
    ensures
        r == match scan_spec(*process, range) {
            Some(a) => match process.read_int_spec(a as int, 4) {
                Some(v) => classify_magic(v),
                None => None,
            },
            None => None,
        },
{
    let page = scan_macho_page(process, range)?;
    let v = match process.read_u32(page, 0) {
        Ok(v) => v,
        Err(_) => return None,
    };
    if v == MH_MAGIC_64 || v == MH_CIGAM_64 {
        Some(PointerSize::Bit64)
    } else if v == MH_MAGIC_32 || v == MH_CIGAM_32 {
        Some(PointerSize::Bit32)
    } else {
        None
    }
}

/// The width that `pointer_size` reports for the magic at the header: 64-bit
/// for either byte order of the 64-bit magic, 32-bit for either byte order of
/// the 32-bit magic, and nothing for any other value.
pub proof fn lemma_pointer_size_from_magic(v: nat)
    ensures
        (v == MH_MAGIC_64 || v == MH_CIGAM_64) <==> classify_magic(v) == Some(PointerSize::Bit64),
        (v == MH_MAGIC_32 || v == MH_CIGAM_32) <==> classify_magic(v) == Some(PointerSize::Bit32),
        !is_magic(v) <==> classify_magic(v) is None,
{
}

/// Byte offsets of the fields that the reader uses, as the Mach-O ABI fixes them.
#[derive(Debug, Clone, Copy, PartialEq, Eq, Structural)]
pub struct MachOFormatOffsets {
    pub number_of_commands: u32,
    pub load_commands: u32,
    pub command_size: u32,
    pub symtab_offset: u32,
    pub number_of_symbols: u32,
    pub strtab_offset: u32,
    pub nlist_value: u32,
    pub size_of_nlist_item: u32,
    pub segcmd64_vmaddr: u32,
    pub segcmd64_fileoff: u32,
}

pub open spec fn format_offsets() -> MachOFormatOffsets {
    MachOFormatOffsets {
        number_of_commands: 0x10,
        load_commands: 0x20,
        command_size: 0x04,
        symtab_offset: 0x08,
        number_of_symbols: 0x0c,
        strtab_offset: 0x10,
        nlist_value: 0x08,
        size_of_nlist_item: 0x10,
        segcmd64_vmaddr: 0x18,
        segcmd64_fileoff: 0x28,
    }
}

impl MachOFormatOffsets {
    /// The offsets of the 64-bit Mach-O layout.
    pub fn new() -> (r: Self)
        ensures
            r == format_offsets(),
    {
        MachOFormatOffsets {
            number_of_commands: 0x10,
            load_commands: 0x20,
            command_size: 0x04,
            symtab_offset: 0x08,
            number_of_symbols: 0x0c,
            strtab_offset: 0x10,
            nlist_value: 0x08,
            size_of_nlist_item: 0x10,
            segcmd64_vmaddr: 0x18,
            segcmd64_fileoff: 0x28,
        }
    }
}

/// The entry that decides where file offset `f` is mapped: the one with the
/// greatest file offset not above `f`, the later one among equal offsets.
pub open spec fn floor_entry(s: Seq<(u64, u64)>, f: u64) -> Option<(u64, u64)>
    decreases s.len(),
{
    if s.len() == 0 {
        None
    } else {
        let rest = floor_entry(s.drop_last(), f);
        let e = s.last();
        if e.0 <= f && (rest is None || rest->Some_0.0 <= e.0) {
            Some(e)
        } else {
            rest
        }
    }
}

/// The virtual address of file offset `f`: the segment start's address plus
/// the distance into the segment, or `f` itself where no segment starts at or
/// before it.
pub open spec fn translate(s: Seq<(u64, u64)>, f: u64) -> u64 {
    match floor_entry(s, f) {
        Some(e) => e.1.wrapping_add((f - e.0) as u64),
        None => f,
    }
}

/// Of the entries, the one that `floor_entry` picks has the greatest file
/// offset that is not above `f`; there is one exactly when some entry starts at
/// or before `f`.
pub proof fn lemma_floor_entry_greatest(s: Seq<(u64, u64)>, f: u64)
    ensures
        floor_entry(s, f) is Some <==> exists|i: int| 0 <= i < s.len() && s[i].0 <= f,
        floor_entry(s, f) is Some ==> {
            let e = floor_entry(s, f)->Some_0;
            &&& s.contains(e)
            &&& e.0 <= f
            &&& forall|i: int| 0 <= i < s.len() && s[i].0 <= f ==> s[i].0 <= e.0
        },
    decreases s.len(),
{
    if s.len() > 0 {
        let t = s.drop_last();
        lemma_floor_entry_greatest(t, f);
        assert forall|i: int| 0 <= i < t.len() implies t[i] == s[i] by {}
        if floor_entry(s, f) is Some {
            let e = floor_entry(s, f)->Some_0;
            if e == s.last() {
                assert(s[s.len() - 1] == e);
            } else {
                let j = choose|j: int| 0 <= j < t.len() && t[j] == e;
                assert(s[j] == e);
            }
        }
        if exists|i: int| 0 <= i < s.len() && s[i].0 <= f {
            let i = choose|i: int| 0 <= i < s.len() && s[i].0 <= f;
            if i < t.len() {
                assert(t[i].0 <= f);
            }
        }
    }
}

/// Adds to `map` an entry for each of the `nsects` section records at
/// `page + off` that has a file offset.
fn read_sections(process: &Process, page: u64, off: u64, nsects: u32, map: &mut FileOffsetMap) -> (r: Result<(), ReadError>)
    requires
        off <= u32::MAX + 0x48,
    ensures
        match sections_from(*process, page + off, nsects as nat, 0, old(map).view()) {
            Some(s) => r is Ok && final(map).view() == s,
            None => r is Err,
        },
{
    let ghost at = page + off;
    let ghost first = map.view();
    let mut k: u32 = 0;
    while k < nsects
        invariant
            0 <= k <= nsects,
            at == page + off,
            first == old(map).view(),
            off <= u32::MAX + 0x48,
            sections_from(*process, at, nsects as nat, k as nat, map.view())
                == sections_from(*process, at, nsects as nat, 0, first),
        decreases nsects - k,
    {
        let sect: u64 = off + k as u64 * SECTION_64_SIZE;
        let addr = match process.read_u64(page, sect + 0x20) {
            Ok(v) => v,
            Err(e) => return Err(e),
        };
        let sect_off = match process.read_u32(page, sect + 0x30) {
            Ok(v) => v,
            Err(e) => return Err(e),
        };
        if sect_off != 0 {
            map.insert(sect_off as u64, addr);
        }
        k += 1;
    }
    Ok(())
}

/// Segments and sections of an image by file offset and virtual address, in
/// the order in which the load commands list them. A later entry for an offset
/// supersedes an earlier one, as a second insert into an ordered map would
/// replace the first; the lookup is the verified floor search of
/// `fileoff_to_vmaddr` over the entries.
pub struct FileOffsetMap {
    pub entries: Vec<(u64, u64)>,
}

impl FileOffsetMap {
    pub open spec fn view(&self) -> Seq<(u64, u64)> {
        self.entries@
    }

    pub fn new() -> (r: Self)
        ensures
            r.view() == Seq::<(u64, u64)>::empty(),
    {
        FileOffsetMap { entries: Vec::new() }
    }

    /// Records that the file offset `fileoff` is mapped at `vmaddr`.
    pub fn insert(&mut self, fileoff: u64, vmaddr: u64)
        ensures
            final(self).view() == old(self).view().push((fileoff, vmaddr)),
    {
        self.entries.push((fileoff, vmaddr));
    }
}

/// Translates a file offset into a virtual address through the segments in `map`.
pub fn fileoff_to_vmaddr(map: &FileOffsetMap, fileoff: u64) -> (r: u64)
    ensures
        r == translate(map.view(), fileoff),
{
    let mut best: Option<(u64, u64)> = None;
    let mut i: usize = 0;
    while i < map.entries.len()
        invariant
            0 <= i <= map.view().len(),
            best == floor_entry(map.view().subrange(0, i as int), fileoff),
        decreases map.view().len() - i,
    {
        let e = map.entries[i];
        assert(map.view().subrange(0, i + 1).drop_last() =~= map.view().subrange(0, i as int));
        if e.0 <= fileoff {
            match best {
                Some(b) => {
                    if b.0 <= e.0 {
                        best = Some(e);
                    }
                },
                None => {
                    best = Some(e);
                },
            }
        }
        i += 1;
    }
    assert(map.view().subrange(0, i as int) =~= map.view());
    proof {
        lemma_floor_entry_greatest(map.view(), fileoff);
    }
    match best {
        Some(e) => e.1.wrapping_add(fileoff - e.0),
        None => fileoff,
    }
}

/// What walking the load commands has gathered so far, and where the next
/// command starts relative to the header.
pub struct LoadCommandWalk {
    pub symtab_fileoff: u32,
    pub number_of_symbols: u32,
    pub strtab_fileoff: u32,
    pub segments: Seq<(u64, u64)>,
    pub next: u32,
    pub saw_symtab: bool,
}

pub open spec fn walk_start() -> LoadCommandWalk {
    LoadCommandWalk {
        symtab_fileoff: 0,
        number_of_symbols: 0,
        strtab_fileoff: 0,
        segments: Seq::empty(),
        next: 0x20,
        saw_symtab: false,
    }
}

/// Size of a 64-bit section record, which follows its segment command.
pub const SECTION_64_SIZE: u64 = 0x50;

/// The map entries `acc` extended by the sections from the `k`-th on of the
/// `nsects` records at `at`: one entry per section that has a file offset.
pub open spec fn sections_from(p: Process, at: int, nsects: nat, k: nat, acc: Seq<(u64, u64)>) -> Option<
    Seq<(u64, u64)>,
>
    decreases nsects - k,
{
    if k >= nsects {
        Some(acc)
    } else {
        let sect = at + k * 0x50;
        match (p.read_int_spec(sect + 0x20, 8), p.read_int_spec(sect + 0x30, 4)) {
            (Some(addr), Some(off)) => sections_from(
                p,
                at,
                nsects,
                k + 1,
                if off != 0 {
                    acc.push((off as u64, addr as u64))
                } else {
                    acc
                },
            ),
            _ => None,
        }
    }
}

/// The walk after taking in the fields of the command at the cursor, before
/// the cursor moves.
pub open spec fn take_command(p: Process, page: u64, w: LoadCommandWalk, cmd: nat) -> Option<
    LoadCommandWalk,
> {
    let at = page + w.next;
    if cmd == LC_SYMTAB {
        match (p.read_int_spec(at + 0x08, 4), p.read_int_spec(at + 0x0c, 4), p.read_int_spec(at + 0x10, 4)) {
            (Some(a), Some(b), Some(c)) => Some(
                LoadCommandWalk {
                    symtab_fileoff: a as u32,
                    number_of_symbols: b as u32,
                    strtab_fileoff: c as u32,
                    segments: w.segments,
                    next: w.next,
                    saw_symtab: true,
                },
            ),
            _ => None,
        }
    } else if cmd == LC_SEGMENT_64 {
        match (p.read_int_spec(at + 0x18, 8), p.read_int_spec(at + 0x28, 8), p.read_int_spec(at + 0x40, 4)) {
            (Some(vm), Some(fo), Some(nsects)) => match sections_from(
                p,
                at + 0x48,
                nsects,
                0,
                w.segments.push((fo as u64, vm as u64)),
            ) {
                Some(segments) => Some(
                    LoadCommandWalk {
                        symtab_fileoff: w.symtab_fileoff,
                        number_of_symbols: w.number_of_symbols,
                        strtab_fileoff: w.strtab_fileoff,
                        segments,
                        next: w.next,
                        saw_symtab: w.saw_symtab,
                    },
                ),
                None => None,
            },
            _ => None,
        }
    } else {
        Some(w)
    }
}

/// One load command: read its type, take in its fields, and move the cursor
/// past it by its declared size. Nothing comes of a failed read or of a cursor
/// that leaves the 32-bit range.
pub open spec fn walk_step(p: Process, page: u64, w: LoadCommandWalk) -> Option<LoadCommandWalk> {
    let at = page + w.next;
    match p.read_int_spec(at, 4) {
        None => None,
        Some(cmd) => match (take_command(p, page, w, cmd), p.read_int_spec(at + 0x04, 4)) {
            (Some(w1), Some(size)) => if w.next + size > u32::MAX {
                None
            } else {
                Some(
                    LoadCommandWalk {
                        symtab_fileoff: w1.symtab_fileoff,
                        number_of_symbols: w1.number_of_symbols,
                        strtab_fileoff: w1.strtab_fileoff,
                        segments: w1.segments,
                        next: (w.next + size) as u32,
                        saw_symtab: w1.saw_symtab,
                    },
                )
            },
            _ => None,
        },
    }
}

/// The walk after `k` more load commands.
pub open spec fn walk(p: Process, page: u64, k: nat, w: LoadCommandWalk) -> Option<LoadCommandWalk>
    decreases k,
{
    if k == 0 {
        Some(w)
    } else {
        match walk_step(p, page, w) {
            Some(w2) => walk(p, page, (k - 1) as nat, w2),
            None => None,
        }
    }
}

/// The header found in `range` and the walk over all of its load commands.
pub open spec fn session_walk(p: Process, range: (u64, u64)) -> Option<(u64, LoadCommandWalk)> {
    match scan_spec(p, range) {
        None => None,
        Some(page) => match p.read_int_spec(page + 0x10, 4) {
            None => None,
            Some(n) => match walk(p, page, n, walk_start()) {
                None => None,
                Some(w) => Some((page, w)),
            },
        },
    }
}

/// A walk that yields a session: one that found a symbol table with symbols
/// and a string table.
pub open spec fn walk_complete(w: LoadCommandWalk) -> bool {
    w.symtab_fileoff != 0 && w.number_of_symbols != 0 && w.strtab_fileoff != 0
}

proof fn lemma_walk_keeps_symtab(p: Process, page: u64, k: nat, w0: LoadCommandWalk)
    ensures
        walk(p, page, k, w0) is Some && !walk(p, page, k, w0)->Some_0.saw_symtab ==> {
            let w = walk(p, page, k, w0)->Some_0;
            &&& w.symtab_fileoff == w0.symtab_fileoff
            &&& w.number_of_symbols == w0.number_of_symbols
            &&& w.strtab_fileoff == w0.strtab_fileoff
            &&& !w0.saw_symtab
        },
    decreases k,
{
    if k > 0 {
        if let Some(w2) = walk_step(p, page, w0) {
            lemma_walk_keeps_symtab(p, page, (k - 1) as nat, w2);
        }
    }
}

/// Without a symbol table command among the load commands there is no
/// session, whatever segment commands the header lists.
pub proof fn lemma_no_symtab_no_session(p: Process, range: (u64, u64))
    requires
        session_walk(p, range) is Some,
        !session_walk(p, range)->Some_0.1.saw_symtab,
    ensures
        !walk_complete(session_walk(p, range)->Some_0.1),
{
    let page = scan_spec(p, range)->Some_0;
    let n = p.read_int_spec(page + 0x10, 4)->Some_0;
    lemma_walk_keeps_symtab(p, page, n, walk_start());
}

/// Why a symbol's name could not be read.
#[derive(Debug, Clone, Copy, PartialEq, Eq, Structural)]
pub enum NameError {
    /// A byte of the name could not be read.
    Unreadable,
    /// No NUL byte came within the capacity.
    TooLong,
}

/// The index of the first NUL byte of `b` from `i` on.
pub open spec fn first_nul_from(b: Seq<u8>, i: int) -> Option<int>
    decreases b.len() - i,
{
    if i < 0 || i >= b.len() {
        None
    } else if b[i] == 0 {
        Some(i)
    } else {
        first_nul_from(b, i + 1)
    }
}

/// The name at `addr` read into a buffer of `cap` bytes: unreadable where the
/// `cap` bytes cannot all be read, else the bytes before the first NUL among
/// them, and too long where there is none.
pub open spec fn name_at(p: Process, addr: u64, cap: nat) -> Result<Seq<u8>, NameError> {
    match p.read_spec(addr as int, cap) {
        None => Err(NameError::Unreadable),
        Some(b) => match first_nul_from(b, 0) {
            Some(i) => Ok(b.subrange(0, i)),
            None => Err(NameError::TooLong),
        },
    }
}

/// Names longer than this are not matched by a lookup in memory.
pub const CSTR: usize = 128;

impl Symbol {
    /// Tries to read the symbol's name into a buffer of `CAP` bytes, NUL included.
    pub fn get_name<const CAP: usize>(&self, process: &Process) -> (r: Result<Vec<u8>, NameError>)
        ensures
            match name_at(*process, self.name_addr, CAP as nat) {
                Ok(s) => r is Ok && r->Ok_0@ == s,
                Err(e) => r == Err::<Vec<u8>, NameError>(e),
            },
    {
        let buf = match process.read_bytes(self.name_addr, 0, CAP) {
            Ok(b) => b,
            Err(_) => return Err(NameError::Unreadable),
        };
        proof {
            crate::memory::lemma_read_len(process.regions_view(), self.name_addr as int, CAP as nat);
        }
        let mut out: Vec<u8> = Vec::new();
        let mut i: usize = 0;
        while i < buf.len()
            invariant
                0 <= i <= buf@.len(),
                first_nul_from(buf@, i as int) == first_nul_from(buf@, 0),
                process.read_spec(self.name_addr as int, CAP as nat) == Some(buf@),
                out@ == buf@.subrange(0, i as int),
            decreases buf@.len() - i,
        {
            if buf[i] == 0 {
                return Ok(out);
            }
            out.push(buf[i]);
            i += 1;
            assert(out@ =~= buf@.subrange(0, i as int));
        }
        Err(NameError::TooLong)
    }
}

/// The state of a walk over the load commands, as the constructor keeps it.
struct LoadCommandWalker {
    symtab_fileoff: u32,
    number_of_symbols: u32,
    strtab_fileoff: u32,
    map: FileOffsetMap,
    next: u32,
    saw_symtab: Ghost<bool>,
}

impl LoadCommandWalker {
    closed spec fn view(&self) -> LoadCommandWalk {
        LoadCommandWalk {
            symtab_fileoff: self.symtab_fileoff,
            number_of_symbols: self.number_of_symbols,
            strtab_fileoff: self.strtab_fileoff,
            segments: self.map.view(),
            next: self.next,
            saw_symtab: self.saw_symtab@,
        }
    }

    fn new(first: u32) -> (r: Self)
        requires
            first == 0x20,
        ensures
            r.view() == walk_start(),
    {
        LoadCommandWalker {
            symtab_fileoff: 0,
            number_of_symbols: 0,
            strtab_fileoff: 0,
            map: FileOffsetMap::new(),
            next: first,
            saw_symtab: Ghost(false),
        }
    }

    /// Takes in the load command at the cursor and moves past it; false where
    /// a read fails or the cursor would leave the 32-bit range.
    fn step(&mut self, process: &Process, page: u64) -> (ok: bool)
        ensures
            match walk_step(*process, page, old(self).view()) {
                Some(w) => ok && final(self).view() == w,
                None => !ok,
            },
    {
        let next = self.next;
        let cmd = match process.read_u32(page, next as u64) {
            Ok(v) => v,
            Err(_) => return false,
        };
        if cmd == LC_SYMTAB {
            let (a, b, c) = match (
                process.read_u32(page, next as u64 + 0x08),
                process.read_u32(page, next as u64 + 0x0c),
                process.read_u32(page, next as u64 + 0x10),
            ) {
                (Ok(a), Ok(b), Ok(c)) => (a, b, c),
                _ => return false,
            };
            self.symtab_fileoff = a;
            self.number_of_symbols = b;
            self.strtab_fileoff = c;
            self.saw_symtab = Ghost(true);
        } else if cmd == LC_SEGMENT_64 {
            let (vmaddr, fileoff, nsects) = match (
                process.read_u64(page, next as u64 + 0x18),
                process.read_u64(page, next as u64 + 0x28),
                process.read_u32(page, next as u64 + 0x40),
            ) {
                (Ok(v), Ok(f), Ok(n)) => (v, f, n),
                _ => return false,
            };
            self.map.insert(fileoff, vmaddr);
            if read_sections(process, page, next as u64 + 0x48, nsects, &mut self.map).is_err() {
                return false;
            }
        }
        let command_size = match process.read_u32(page, next as u64 + 0x04) {
            Ok(v) => v,
            Err(_) => return false,
        };
        if command_size > u32::MAX - next {
            return false;
        }
        self.next = next + command_size;
        true
    }
}

/// A symbol exported by a module.
#[derive(Debug, Clone, Copy, PartialEq, Eq, Structural)]
pub struct Symbol {
    /// The address of the symbol.
    pub address: u64,
    /// The address of the symbol's name.
    pub name_addr: u64,
}

/// The symbol table of a module in a process, as located once and kept.
/// Only the 64-bit Mach-O format is supported.
pub struct Symbols {
    pub module_range: (u64, u64),
    pub page: u64,
    pub offsets: MachOFormatOffsets,
    pub symtab_fileoff: u32,
    pub number_of_symbols: u32,
    pub strtab_fileoff: u32,
    pub map_fileoff_to_vmaddr: FileOffsetMap,
    pub symtab_vmaddr: u64,
    pub strtab_vmaddr: u64,
}

impl Symbols {
    /// This session is the one that the header `page` and the walk `w` over
    /// its load commands give for the module in `range`.
    pub open spec fn from_walk(&self, range: (u64, u64), page: u64, w: LoadCommandWalk) -> bool {
        &&& self.module_range == range
        &&& self.page == page
        &&& self.offsets == format_offsets()
        &&& self.symtab_fileoff == w.symtab_fileoff
        &&& self.number_of_symbols == w.number_of_symbols
        &&& self.strtab_fileoff == w.strtab_fileoff
        &&& self.map_fileoff_to_vmaddr.view() == w.segments
        &&& self.symtab_vmaddr == translate(w.segments, w.symtab_fileoff as u64)
        &&& self.strtab_vmaddr == translate(w.segments, w.strtab_fileoff as u64)
    }

    /// Locates the module's header and walks its load commands. Nothing comes
    /// back where no header is found, a read fails, or no symbol table with
    /// symbols and a string table is declared.
    pub fn new(process: &Process, module_range: (u64, u64)) -> (r: Option<Self>)
        ensures
            match session_walk(*process, module_range) {
                Some((page, w)) => if walk_complete(w) {
                    r is Some && r->Some_0.from_walk(module_range, page, w)
                } else {
                    r is None
                },
                None => r is None,
            },
    {
        let page = scan_macho_page(process, module_range)?;
        let offsets = MachOFormatOffsets::new();
        let number_of_commands = match process.read_u32(page, offsets.number_of_commands as u64) {
            Ok(n) => n,
            Err(_) => return None,
        };
        let mut walker = LoadCommandWalker::new(offsets.load_commands);
        let mut i: u32 = 0;
        while i < number_of_commands
            invariant
                0 <= i <= number_of_commands,
                offsets == format_offsets(),
                scan_spec(*process, module_range) == Some(page),
                process.read_int_spec(page + 0x10, 4) == Some(number_of_commands as nat),
                walk(*process, page, (number_of_commands - i) as nat, walker.view()) == walk(
                    *process,
                    page,
                    number_of_commands as nat,
                    walk_start(),
                ),
            decreases number_of_commands - i,
        {
            if !walker.step(process, page) {
                return None;
            }
            i += 1;
        }
        let LoadCommandWalker { symtab_fileoff, number_of_symbols, strtab_fileoff, map, .. } = walker;
        if symtab_fileoff == 0 || number_of_symbols == 0 || strtab_fileoff == 0 {
            return None;
        }
        let symtab_vmaddr = fileoff_to_vmaddr(&map, symtab_fileoff as u64);
        let strtab_vmaddr = fileoff_to_vmaddr(&map, strtab_fileoff as u64);
        Some(Symbols {
            module_range,
            page,
            offsets,
            symtab_fileoff,
            number_of_symbols,
            strtab_fileoff,
            map_fileoff_to_vmaddr: map,
            symtab_vmaddr,
            strtab_vmaddr,
        })
    }
}

impl Symbols {
    /// The symbol of the `j`-th symbol table entry, where its fields can be read.
    pub open spec fn symbol_at(&self, p: Process, j: int) -> Option<Symbol> {
        let item = self.symtab_vmaddr + j * 0x10;
        match (p.read_int_spec(item, 4), p.read_int_spec(item + 0x08, 8)) {
            (Some(name_off), Some(value)) => Some(
                Symbol {
                    address: translate(self.map_fileoff_to_vmaddr.view(), value as u64),
                    name_addr: self.strtab_vmaddr.wrapping_add(name_off as u64),
                },
            ),
            _ => None,
        }
    }

    /// The symbols of the first `k` entries, leaving out those that cannot be read.
    pub open spec fn symbols_upto(&self, p: Process, k: int) -> Seq<Symbol>
        decreases k,
    {
        if k <= 0 {
            Seq::empty()
        } else {
            let rest = self.symbols_upto(p, k - 1);
            match self.symbol_at(p, k - 1) {
                Some(s) => rest.push(s),
                None => rest,
            }
        }
    }

    /// The exported symbols, as memory holds them now.
    pub open spec fn symbols(&self, p: Process) -> Seq<Symbol> {
        self.symbols_upto(p, self.number_of_symbols as int)
    }

    /// Iteration yields at most one symbol per entry of the table.
    pub proof fn lemma_symbols_bounded(&self, p: Process, k: int)
        ensures
            self.symbols_upto(p, k).len() <= if k < 0 { 0 } else { k },
        decreases k,
    {
        if k > 0 {
            self.lemma_symbols_bounded(p, k - 1);
        }
    }

    /// Iteration yields no more symbols than the table declares, and two
    /// iterations over the same memory yield the same sequence.
    pub proof fn lemma_iter_bounded_and_restartable(&self, p: Process, q: Process)
        requires
            p == q,
        ensures
            self.symbols(p).len() <= self.number_of_symbols,
            self.symbols(p) == self.symbols(q),
    {
        self.lemma_symbols_bounded(p, self.number_of_symbols as int);
    }

    /// The symbol at entry `j`, if its fields can be read.
    pub fn symbol(&self, process: &Process, j: u32) -> (r: Option<Symbol>)
        ensures
            r == self.symbol_at(*process, j as int),
    {
        let item_off: u64 = j as u64 * 0x10;
        let name_off = match process.read_u32(self.symtab_vmaddr, item_off) {
            Ok(v) => v,
            Err(_) => return None,
        };
        let value = match process.read_u64(self.symtab_vmaddr, item_off + 0x08) {
            Ok(v) => v,
            Err(_) => return None,
        };
        let address = fileoff_to_vmaddr(&self.map_fileoff_to_vmaddr, value);
        Some(Symbol { address, name_addr: self.strtab_vmaddr.wrapping_add(name_off as u64) })
    }

    /// The exported symbols, in table order; entries that cannot be read are
    /// left out. Each call reads memory anew.
    pub fn iter(&self, process: &Process) -> (r: Vec<Symbol>)
        ensures
            r@ == self.symbols(*process),
    {
        let mut out: Vec<Symbol> = Vec::new();
        let mut j: u32 = 0;
        while j < self.number_of_symbols
            invariant
                0 <= j <= self.number_of_symbols,
                out@ == self.symbols_upto(*process, j as int),
            decreases self.number_of_symbols - j,
        {
            if let Some(s) = self.symbol(process, j) {
                out.push(s);
            }
            j += 1;
        }
        out
    }

    /// The address of the first symbol from entry `j` on whose name reads as
    /// `name` in memory.
    pub open spec fn live_from(&self, p: Process, name: Seq<u8>, j: int) -> Option<u64>
        decreases self.number_of_symbols - j,
    {
        if j < 0 || j >= self.number_of_symbols {
            None
        } else {
            match self.symbol_at(p, j) {
                Some(s) => if name_at(p, s.name_addr, CSTR as nat) == Ok::<Seq<u8>, NameError>(name) {
                    Some(s.address)
                } else {
                    self.live_from(p, name, j + 1)
                },
                None => self.live_from(p, name, j + 1),
            }
        }
    }

    /// The address that a lookup in memory finds for `name`.
    pub open spec fn live_lookup(&self, p: Process, name: Seq<u8>) -> Option<u64> {
        self.live_from(p, name, 0)
    }

    /// Finds a symbol by name using process memory alone.
    pub fn find_in_memory(&self, process: &Process, symbol_name: &[u8]) -> (r: Option<u64>)
        ensures
            r == self.live_lookup(*process, symbol_name@),
    {
        let mut j: u32 = 0;
        while j < self.number_of_symbols
            invariant
                0 <= j <= self.number_of_symbols,
                self.live_from(*process, symbol_name@, j as int) == self.live_lookup(
                    *process,
                    symbol_name@,
                ),
            decreases self.number_of_symbols - j,
        {
            if let Some(s) = self.symbol(process, j) {
                if let Ok(name) = s.get_name::<CSTR>(process) {
                    if bytes_equal(&name, symbol_name) {
                        return Some(s.address);
                    }
                }
            }
            j += 1;
        }
        None
    }
}

/// Whether two byte strings are equal.
pub fn bytes_equal(a: &Vec<u8>, b: &[u8]) -> (r: bool)
    ensures
        r == (a@ == b@),
{
    if a.len() != b.len() {
        return false;
    }
    let mut i: usize = 0;
    while i < a.len()
        invariant
            0 <= i <= a@.len(),
            a@.len() == b@.len(),
            forall|k: int| 0 <= k < i ==> a@[k] == b@[k],
        decreases a@.len() - i,
    {
        if a[i] != b[i] {
            return false;
        }
        i += 1;
    }
    assert(a@ =~= b@);
    true
}

} // verus!
