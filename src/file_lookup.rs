//! Resolving a symbol through the module's file when memory does not name it.
use vstd::prelude::*;

use crate::macho::Symbols;
use crate::memory::{le_value, Process};

verus! {

/// Length of the header prefix that places the image inside its file.
pub const HEADER_SIZE: usize = 32;

/// Length of the code signature taken at a symbol's file offset.
pub const SIGNATURE_SIZE: usize = 20;

/// Whether `needle` occurs in `haystack` at index `i`.
pub open spec fn occurs_at(haystack: Seq<u8>, needle: Seq<u8>, i: int) -> bool {
    0 <= i && i + needle.len() <= haystack.len() && haystack.subrange(i, i + needle.len()) == needle
}

/// The first index from `i` on where `needle` occurs in `haystack`.
pub open spec fn first_occurrence_from(haystack: Seq<u8>, needle: Seq<u8>, i: int) -> Option<int>
    decreases haystack.len() + 1 - i,
{
    if i < 0 || i + needle.len() > haystack.len() {
        None
    } else if occurs_at(haystack, needle, i) {
        Some(i)
    } else {
        first_occurrence_from(haystack, needle, i + 1)
    }
}

proof fn lemma_first_occurrence_found(haystack: Seq<u8>, needle: Seq<u8>, i: int)
    ensures
        first_occurrence_from(haystack, needle, i) matches Some(k) ==> occurs_at(haystack, needle, k),
    decreases haystack.len() + 1 - i,
{
    if 0 <= i && i + needle.len() <= haystack.len() && !occurs_at(haystack, needle, i) {
        lemma_first_occurrence_found(haystack, needle, i + 1);
    }
}

pub open spec fn first_occurrence(haystack: Seq<u8>, needle: Seq<u8>) -> Option<int> {
    first_occurrence_from(haystack, needle, 0)
}

/// Relies on memchr::memmem::find: the index of the first occurrence of
/// `needle` in `haystack`, or nothing where it does not occur.
#[verifier::external_body]
fn find_subslice(haystack: &[u8], needle: &[u8]) -> (r: Option<usize>)
    ensures
        match r {
            Some(i) => first_occurrence(haystack@, needle@) == Some(i as int),
            None => first_occurrence(haystack@, needle@) is None,
        },
{
    memchr::memmem::find(haystack, needle)
}

/// The `n` bytes of `s` from `pos` on, where `s` holds them.
pub open spec fn bytes_at(s: Seq<u8>, pos: int, n: nat) -> Option<Seq<u8>> {
    if 0 <= pos && pos + n <= s.len() {
        Some(s.subrange(pos, pos + n))
    } else {
        None
    }
}

/// The little-endian integer of `n` bytes at `pos` in `s`, where `s` holds them.
pub open spec fn le_at(s: Seq<u8>, pos: int, n: nat) -> Option<nat> {
    match bytes_at(s, pos, n) {
        Some(b) => Some(le_value(b)),
        None => None,
    }
}

/// Whether the string at `pos` in `s` is `name` followed by a NUL byte.
pub open spec fn name_matches(s: Seq<u8>, pos: int, name: Seq<u8>) -> bool {
    &&& 0 <= pos
    &&& pos + name.len() < s.len()
    &&& s[pos + name.len()] == 0
    &&& s.subrange(pos, pos + name.len()) == name
}

/// A NUL-terminated string matches only a name equal to it: neither a strict
/// prefix of it nor a name that it is a strict prefix of.
pub proof fn lemma_name_match_exact(s: Seq<u8>, pos: int, stored: Seq<u8>, name: Seq<u8>)
    requires
        0 <= pos,
        pos + stored.len() < s.len(),
        s.subrange(pos, pos + stored.len()) == stored,
        s[pos + stored.len()] == 0,
        forall|k: int| 0 <= k < stored.len() ==> stored[k] != 0,
        forall|k: int| 0 <= k < name.len() ==> name[k] != 0,
    ensures
        name_matches(s, pos, name) <==> name == stored,
{
    if name_matches(s, pos, name) {
        if name.len() < stored.len() {
            assert(s.subrange(pos, pos + stored.len())[name.len() as int] == s[pos + name.len()]);
        } else if name.len() > stored.len() {
            assert(s.subrange(pos, pos + name.len())[stored.len() as int] == s[pos + stored.len()]);
        } else {
            assert(name =~= stored);
        }
    }
}

/// The first address in `range` from the `i`-th on at which memory reads as `sig`.
pub open spec fn signature_from(p: Process, range: (u64, u64), sig: Seq<u8>, i: int) -> Option<u64>
    decreases range.1 + 1 - i,
{
    if i < 0 || i + sig.len() > range.1 {
        None
    } else if range.0 + i <= u64::MAX && p.read_spec(range.0 + i, sig.len()) == Some(sig) {
        Some((range.0 + i) as u64)
    } else {
        signature_from(p, range, sig, i + 1)
    }
}

proof fn lemma_signature_first(p: Process, range: (u64, u64), sig: Seq<u8>, k: int, i: int)
    requires
        0 <= k <= i,
        i + sig.len() <= range.1,
        range.0 + i <= u64::MAX,
        p.read_spec(range.0 + i, sig.len()) == Some(sig),
        forall|b: int| range.0 <= b < range.0 + i ==> p.read_spec(b, sig.len()) != Some(sig),
    ensures
        signature_from(p, range, sig, k) == Some((range.0 + i) as u64),
    decreases i - k,
{
    if k < i {
        assert(p.read_spec(range.0 + k, sig.len()) != Some(sig));
        lemma_signature_first(p, range, sig, k + 1, i);
    }
}

/// The first address in `range` at which the bytes `sig` lie in memory.
pub open spec fn signature_scan(p: Process, range: (u64, u64), sig: Seq<u8>) -> Option<u64> {
    signature_from(p, range, sig, 0)
}

/// Reads `n` bytes of `s` at `base + pos`.
fn slice_read(s: &[u8], base: usize, pos: u64, n: usize) -> (r: Option<Vec<u8>>)
    ensures
        match bytes_at(s@, base + pos, n as nat) {
            Some(b) => r is Some && r->Some_0@ == b,
            None => r is None,
        },
{
    if pos > s.len() as u64 || n > s.len() || base > s.len() - n || pos as usize > s.len() - n - base {
        return None;
    }
    let start: usize = base + pos as usize;
    let slen = s.len();
    let mut out: Vec<u8> = Vec::new();
    let mut k: usize = 0;
    while k < n
        invariant
            0 <= k <= n,
            start as int + n as int <= s@.len(),
            s@.len() == slen,
            out@ == s@.subrange(start as int, start + k),
        decreases n - k,
    {
        out.push(s[start + k]);
        k += 1;
        assert(out@ =~= s@.subrange(start as int, start + k));
    }
    Some(out)
}

/// Reads a little-endian `u32` of `s` at `base + pos`.
fn slice_read_u32(s: &[u8], base: usize, pos: u64) -> (r: Option<u32>)
    ensures
        match le_at(s@, base + pos, 4) {
            Some(v) => r is Some && r->Some_0 as nat == v,
            None => r is None,
        },
{
    let b = slice_read(s, base, pos, 4)?;
    proof {
        reveal_with_fuel(le_value, 5);
    }
    Some(b[0] as u32 + 256 * (b[1] as u32 + 256 * (b[2] as u32 + 256 * (b[3] as u32))))
}

/// Reads a little-endian `u64` of `s` at `base + pos`.
fn slice_read_u64(s: &[u8], base: usize, pos: u64) -> (r: Option<u64>)
    ensures
        match le_at(s@, base + pos, 8) {
            Some(v) => r is Some && r->Some_0 as nat == v,
            None => r is None,
        },
{
    let b = slice_read(s, base, pos, 8)?;
    proof {
        reveal_with_fuel(le_value, 9);
    }
    Some(b[0] as u64 + 256 * (b[1] as u64 + 256 * (b[2] as u64 + 256 * (b[3] as u64 + 256 * (
    b[4] as u64 + 256 * (b[5] as u64 + 256 * (b[6] as u64 + 256 * (b[7] as u64))))))))
}

/// Whether the NUL-terminated string at `base + pos` in `s` is `name`.
fn slice_name_matches(s: &[u8], base: usize, pos: u64, name: &[u8]) -> (r: bool)
    ensures
        r == name_matches(s@, base + pos, name@),
{
    if pos > s.len() as u64 || name.len() >= s.len() || base >= s.len() - name.len()
        || pos as usize >= s.len() - name.len() - base {
        return false;
    }
    let start: usize = base + pos as usize;
    let slen = s.len();
    if s[start + name.len()] != 0 {
        return false;
    }
    let mut i: usize = 0;
    while i < name.len()
        invariant
            0 <= i <= name@.len(),
            start as int + name@.len() < s@.len(),
            start == base + pos,
            s@.len() == slen,
            forall|k: int| 0 <= k < i ==> s@[start + k] == name@[k],
        decreases name@.len() - i,
    {
        if s[start + i] != name[i] {
            assert(s@.subrange(start as int, start + name@.len())[i as int] != name@[i as int]);
            return false;
        }
        i += 1;
    }
    assert(s@.subrange(start as int, start + name@.len()) =~= name@);
    true
}

/// Finds the first address in `range` at which memory holds `sig`.
pub fn scan_signature(process: &Process, range: (u64, u64), sig: &Vec<u8>) -> (r: Option<u64>)
    ensures
        r == signature_scan(*process, range, sig@),
{
    let (base, len) = range;
    if (sig.len() as u64) > len {
        return None;
    }
    let count: u64 = len - sig.len() as u64;
    let mut i: u64 = 0;
    loop
        invariant
            0 <= i <= count + 1,
            count == range.1 - sig@.len(),
            base == range.0,
            signature_from(*process, range, sig@, i as int) == signature_scan(*process, range, sig@),
        decreases count + 1 - i,
    {
        if i > count {
            return None;
        }
        if i <= u64::MAX - base {
            match process.read_bytes(base, i, sig.len()) {
                Ok(b) => {
                    if crate::macho::bytes_equal(&b, sig.as_slice()) {
                        return Some(base + i);
                    }
                },
                Err(_) => {},
            }
        }
        if i == count {
            assert(signature_from(*process, range, sig@, i + 1) is None);
            return None;
        }
        i += 1;
    }
}

impl Symbols {
    /// The lookup through the file from entry `j` on, with the image starting at
    /// `off` in `file`.
    pub open spec fn file_from(&self, p: Process, file: Seq<u8>, off: int, name: Seq<u8>, j: int) -> Option<u64>
        decreases self.number_of_symbols - j,
    {
        if j < 0 || j >= self.number_of_symbols {
            None
        } else {
            let item = self.symtab_fileoff + j * 0x10;
            match le_at(file, off + item, 4) {
                None => None,
                Some(name_off) => if name_matches(file, off + self.strtab_fileoff + name_off, name) {
                    match le_at(file, off + item + 0x08, 8) {
                        None => None,
                        Some(fileoff) => match bytes_at(file, off + fileoff, SIGNATURE_SIZE as nat) {
                            None => None,
                            Some(sig) => signature_scan(p, self.module_range, sig),
                        },
                    }
                } else {
                    self.file_from(p, file, off, name, j + 1)
                },
            }
        }
    }

    /// The address that a lookup through the module's file finds for `name`.
    pub open spec fn file_lookup(&self, p: Process, file: Seq<u8>, name: Seq<u8>) -> Option<u64> {
        match p.read_spec(self.page as int, HEADER_SIZE as nat) {
            None => None,
            Some(header) => match first_occurrence(file, header) {
                None => None,
                Some(off) => self.file_from(p, file, off, name, 0),
            },
        }
    }

    /// Finds a symbol by name through the module's file: the image is placed in
    /// the file by its header, the name is looked up in the file's tables, and
    /// the bytes at the symbol's file offset are then searched for in memory.
    pub fn find_in_file(&self, process: &Process, file: &[u8], symbol_name: &[u8]) -> (r: Option<u64>)
        ensures
            r == self.file_lookup(*process, file@, symbol_name@),
    {
        let header = match process.read_bytes(self.page, 0, HEADER_SIZE) {
            Ok(h) => h,
            Err(_) => return None,
        };
        let off = find_subslice(file, header.as_slice())?;
        proof {
            lemma_first_occurrence_found(file@, header@, 0);
        }
        let mut j: u32 = 0;
        while j < self.number_of_symbols
            invariant
                0 <= j <= self.number_of_symbols,
                off <= file@.len(),
                first_occurrence(file@, header@) == Some(off as int),
                process.read_spec(self.page as int, HEADER_SIZE as nat) == Some(header@),
                self.file_from(*process, file@, off as int, symbol_name@, j as int)
                    == self.file_lookup(*process, file@, symbol_name@),
            decreases self.number_of_symbols - j,
        {
            let item: u64 = self.symtab_fileoff as u64 + j as u64 * 0x10;
            let name_off = slice_read_u32(file, off, item)?;
            let name_pos: u64 = self.strtab_fileoff as u64 + name_off as u64;
            if slice_name_matches(file, off, name_pos, symbol_name) {
                let fileoff = slice_read_u64(file, off, item + 0x08)?;
                let sig = slice_read(file, off, fileoff, SIGNATURE_SIZE)?;
                return scan_signature(process, self.module_range, &sig);
            }
            j += 1;
        }
        None
    }

    /// The address that `find_address` gives for `name`: the lookup in memory,
    /// else, where the module's file is at hand, the lookup through it.
    pub open spec fn lookup(&self, p: Process, name: Seq<u8>, file: Option<Seq<u8>>) -> Option<u64> {
        match self.live_lookup(p, name) {
            Some(a) => Some(a),
            None => match file {
                Some(f) => self.file_lookup(p, f, name),
                None => None,
            },
        }
    }

    /// Whether entry `k` of the file's symbol table can be read and names `name`.
    pub open spec fn file_entry_names(&self, file: Seq<u8>, off: int, k: int, name: Seq<u8>) -> bool {
        let no = le_at(file, off + self.symtab_fileoff + k * 0x10, 4);
        no is Some && name_matches(file, off + self.strtab_fileoff + no->Some_0, name)
    }

    /// Whether entry `k` of the file's symbol table can be read and names
    /// something other than `name`.
    pub open spec fn file_entry_skipped(&self, file: Seq<u8>, off: int, k: int, name: Seq<u8>) -> bool {
        le_at(file, off + self.symtab_fileoff + k * 0x10, 4) is Some && !self.file_entry_names(file, off, k, name)
    }

    proof fn lemma_file_from_skips(&self, p: Process, file: Seq<u8>, off: int, name: Seq<u8>, k: int, j: int)
        requires
            0 <= k <= j < self.number_of_symbols,
            forall|i: int| k <= i < j ==> #[trigger] self.file_entry_skipped(file, off, i, name),
        ensures
            self.file_from(p, file, off, name, k) == self.file_from(p, file, off, name, j),
        decreases j - k,
    {
        if k < j {
            assert(self.file_entry_skipped(file, off, k, name));
            assert(off + (self.symtab_fileoff + k * 0x10) == off + self.symtab_fileoff + k * 0x10);
            self.lemma_file_from_skips(p, file, off, name, k + 1, j);
        }
    }

    /// Where memory does not give `name` and the module's file is at hand, the
    /// first entry of the file's table that names it decides: the bytes at its
    /// file offset are searched for in the module's memory, and the lookup
    /// returns the first address where they lie.
    pub proof fn lemma_file_fallback(
        &self,
        p: Process,
        file: Seq<u8>,
        name: Seq<u8>,
        off: int,
        j: int,
        value: nat,
        sig: Seq<u8>,
        a: u64,
    )
        requires
            self.live_lookup(p, name) is None,
            p.read_spec(self.page as int, HEADER_SIZE as nat) is Some,
            first_occurrence(file, p.read_spec(self.page as int, HEADER_SIZE as nat)->Some_0) == Some(off),
            0 <= j < self.number_of_symbols,
            forall|i: int| 0 <= i < j ==> #[trigger] self.file_entry_skipped(file, off, i, name),
            self.file_entry_names(file, off, j, name),
            le_at(file, off + self.symtab_fileoff + j * 0x10 + 0x08, 8) == Some(value),
            bytes_at(file, off + value, SIGNATURE_SIZE as nat) == Some(sig),
            self.module_range.0 <= a,
            a + sig.len() <= self.module_range.0 + self.module_range.1,
            p.read_spec(a as int, sig.len()) == Some(sig),
            forall|b: int|
                self.module_range.0 <= b < a ==> p.read_spec(b, sig.len()) != Some(sig),
        ensures
            self.lookup(p, name, Some(file)) == Some(a),
    {
        self.lemma_file_from_skips(p, file, off, name, 0, j);
        lemma_signature_first(p, self.module_range, sig, 0, a - self.module_range.0);
    }

    /// A name found in memory gives its address there, whether or not the file
    /// is at hand; a name memory does not give is looked up through the file
    /// where it is at hand; otherwise nothing is found.
    pub proof fn lemma_lookup_paths(&self, p: Process, name: Seq<u8>, file: Option<Seq<u8>>)
        ensures
            self.live_lookup(p, name) matches Some(a) ==> self.lookup(p, name, file) == Some(a),
            self.live_lookup(p, name) is None && file is Some ==> self.lookup(p, name, file)
                == self.file_lookup(p, file->Some_0, name),
            self.live_lookup(p, name) is None && file is None ==> self.lookup(p, name, file) is None,
    {
    }

    /// Finds the address of an exported symbol by name: in memory first, then,
    /// where the bytes of the module's file are given, through the file.
    pub fn find_address(&self, process: &Process, symbol_name: &[u8], module_file: Option<&[u8]>) -> (r: Option<u64>)
        ensures
            r == self.lookup(
                *process,
                symbol_name@,
                match module_file {
                    Some(f) => Some(f@),
                    None => None,
                },
            ),
    {
        if let Some(a) = self.find_in_memory(process, symbol_name) {
            return Some(a);
        }
        match module_file {
            Some(f) => self.find_in_file(process, f, symbol_name),
            None => None,
        }
    }
}

} // verus!
