//! A readable view of a process's address space.
use vstd::prelude::*;

verus! {

/// One mapped stretch of a process's memory: the bytes found from `base` on.
pub struct Region {
    pub base: u64,
    pub data: Vec<u8>,
}

/// The memory of a target process, as a list of mapped regions.
/// A read succeeds when one region holds every byte it asks for; where several
/// do, the first one listed answers. Anything else is unmapped.
pub struct Process {
    pub regions: Vec<Region>,
}

/// A read of process memory that did not succeed.
#[derive(Debug, Clone, Copy, PartialEq, Eq, Structural)]
pub enum ReadError {
    Unreadable,
}

pub open spec fn region_covers(base: u64, data: Seq<u8>, addr: int, n: nat) -> bool {
    base <= addr && addr + n <= base + data.len()
}

/// The bytes `[addr, addr + n)` as the first region covering them holds them,
/// or nothing where no region covers them all.
pub open spec fn read_regions(regions: Seq<(u64, Seq<u8>)>, addr: int, n: nat) -> Option<Seq<u8>>
    decreases regions.len(),
{
    if regions.len() == 0 {
        None
    } else if region_covers(regions[0].0, regions[0].1, addr, n) {
        let off = addr - regions[0].0;
        Some(regions[0].1.subrange(off, off + n))
    } else {
        read_regions(regions.drop_first(), addr, n)
    }
}

/// A successful read holds exactly the bytes asked for.
pub proof fn lemma_read_len(regions: Seq<(u64, Seq<u8>)>, addr: int, n: nat)
    ensures
        read_regions(regions, addr, n) is Some ==> read_regions(regions, addr, n)->Some_0.len() == n,
    decreases regions.len(),
{
    if regions.len() > 0 && !region_covers(regions[0].0, regions[0].1, addr, n) {
        lemma_read_len(regions.drop_first(), addr, n);
    }
}

/// Little-endian value of a sequence of bytes.
pub open spec fn le_value(b: Seq<u8>) -> nat
    decreases b.len(),
{
    if b.len() == 0 {
        0
    } else {
        b[0] as nat + 256 * le_value(b.drop_first())
    }
}

impl Process {
    pub open spec fn regions_view(&self) -> Seq<(u64, Seq<u8>)> {
        self.regions@.map_values(|r: Region| (r.base, r.data@))
    }

    /// What reading `n` bytes at `addr` yields.
    pub open spec fn read_spec(&self, addr: int, n: nat) -> Option<Seq<u8>> {
        read_regions(self.regions_view(), addr, n)
    }

    /// What reading a little-endian integer of `n` bytes at `addr` yields.
    pub open spec fn read_int_spec(&self, addr: int, n: nat) -> Option<nat> {
        match self.read_spec(addr, n) {
            Some(b) => Some(le_value(b)),
            None => None,
        }
    }

    /// Reads `n` bytes at `base + off`.
    pub fn read_bytes(&self, base: u64, off: u64, n: usize) -> (r: Result<Vec<u8>, ReadError>)
        ensures
            match self.read_spec(base + off, n as nat) {
                Some(b) => r == Ok::<Vec<u8>, ReadError>(r->Ok_0) && r->Ok_0@ == b,
                None => r == Err::<Vec<u8>, ReadError>(ReadError::Unreadable),
            },
    {
        let ghost addr = base + off;
        let ghost view = self.regions_view();
        let mut i: usize = 0;
        assert(view.subrange(0, view.len() as int) =~= view);
        while i < self.regions.len()
            invariant
                0 <= i <= self.regions@.len(),
                view == self.regions_view(),
                addr == base + off,
                read_regions(view.subrange(i as int, view.len() as int), addr, n as nat)
                    == read_regions(view, addr, n as nat),
            decreases self.regions@.len() - i,
        {
            let ghost rest = view.subrange(i as int, view.len() as int);
            assert(rest.drop_first() =~= view.subrange(i + 1, view.len() as int));
            let region = &self.regions[i];
            let rb = region.base;
            let len = region.data.len();
            assert(view[i as int] == (rb, region.data@));
            assert(rest[0] == view[i as int]);
            if rb as u128 <= base as u128 + off as u128
                && base as u128 + off as u128 + n as u128 <= rb as u128 + len as u128 {
                let start = ((base as u128 + off as u128) - rb as u128) as usize;
                assert(start as int + n as int <= len as int);
                let mut out: Vec<u8> = Vec::new();
                let mut k: usize = 0;
                while k < n
                    invariant
                        0 <= k <= n,
                        start as int + n as int <= region.data@.len(),
                        region.data@.len() == len,
                        out@ == region.data@.subrange(start as int, start + k),
                    decreases n - k,
                {
                    out.push(region.data[start + k]);
                    k += 1;
                    assert(out@ =~= region.data@.subrange(start as int, start + k));
                }
                assert(region_covers(rb, region.data@, addr, n as nat));
                return Ok(out);
            }
            i += 1;
        }
        proof {
            assert(view.subrange(i as int, view.len() as int).len() == 0);
        }
        Err(ReadError::Unreadable)
    }
}

impl Process {
    /// Reads a little-endian `u32` at `base + off`.
    pub fn read_u32(&self, base: u64, off: u64) -> (r: Result<u32, ReadError>)
        ensures
            match self.read_int_spec(base + off, 4) {
                Some(v) => r is Ok && r->Ok_0 as nat == v,
                None => r is Err,
            },
    {
        let b = match self.read_bytes(base, off, 4) {
            Ok(b) => b,
            Err(e) => return Err(e),
        };
        proof {
            lemma_read_len(self.regions_view(), base + off, 4);
        }
        proof {
            reveal_with_fuel(le_value, 5);
        }
        let v: u32 = b[0] as u32 + 256 * (b[1] as u32 + 256 * (b[2] as u32 + 256 * (b[3] as u32)));
        Ok(v)
    }

    /// Reads a little-endian `u64` at `base + off`.
    pub fn read_u64(&self, base: u64, off: u64) -> (r: Result<u64, ReadError>)
        ensures
            match self.read_int_spec(base + off, 8) {
                Some(v) => r is Ok && r->Ok_0 as nat == v,
                None => r is Err,
            },
    {
        let b = match self.read_bytes(base, off, 8) {
            Ok(b) => b,
            Err(e) => return Err(e),
        };
        proof {
            lemma_read_len(self.regions_view(), base + off, 8);
        }
        proof {
            reveal_with_fuel(le_value, 9);
        }
        let v: u64 = b[0] as u64 + 256 * (b[1] as u64 + 256 * (b[2] as u64 + 256 * (b[3] as u64
            + 256 * (b[4] as u64 + 256 * (b[5] as u64 + 256 * (b[6] as u64 + 256 * (b[7] as u64)))))));
        Ok(v)
    }
}

} // verus!
