//! Flags of page table entries, of mappings and of shared memory.
use vstd::prelude::*;

verus! {

/// Whether every bit of `wanted` is set in `bits`.
pub open spec fn has_all(bits: u64, wanted: u64) -> bool {
    bits & wanted == wanted
}

/// Whether some bit of `wanted` is set in `bits`.
pub open spec fn has_some(bits: u64, wanted: u64) -> bool {
    bits & wanted != 0
}

/// `bits` where `condition` holds, and no bit where it does not.
pub open spec fn bits_if(condition: bool, bits: u64) -> u64 {
    if condition {
        bits
    } else {
        0
    }
}

proof fn lemma_or_zero()
    by (bit_vector)
    ensures
        forall|a: u64| #[trigger] (a | 0) == a,
        forall|a: u64| #[trigger] (0 | a) == a,
{
}

/// A single bit is set or not, and one of some bits is set where the flags have any of them.
pub proof fn lemma_low_bits(f: u64)
    by (bit_vector)
    ensures
        f & 7 != 0 <==> f & 1 != 0 || f & 2 != 0 || f & 4 != 0,
        f & 1 == 0 || f & 1 == 1,
        f & 16 == 0 || f & 16 == 16,
        f & 0x80 == 0 || f & 0x80 == 0x80,
        1u64 << 7 == 0x80,
        0u64 & 1 == 0,
{
}

proof fn lemma_and_twice(a: u64, mask: u64)
    by (bit_vector)
    ensures
        (a & mask) & mask == a & mask,
{
}

proof fn lemma_mapping_bits(w: u64, x: u64, p: u64, u: u64)
    by (bit_vector)
    requires
        w == 0 || w == 1u64 << 1,
        x == 0 || x == 1u64 << 63,
        p == 0 || p == 1,
        u == 0 || u == 1u64 << 2,
    ensures
        (w | x | p | u) & 0x8000_0000_0000_01ff == (w | x | p | u),
        (w | x | p | u) & 1 == p,
        (w | x | p | u) & (1u64 << 7) != 1u64 << 7,
{
}

proof fn lemma_each_mapping_bit(f: u64, w: u64, x: u64, p: u64, u: u64)
    by (bit_vector)
    requires
        w == if f & (1u64 << 1) == 1u64 << 1 { 1u64 << 1 } else { 0u64 },
        x == if f & (1u64 << 2) == 1u64 << 2 { 0u64 } else { 1u64 << 63 },
        p == if f & (1u64 | 1u64 << 1 | 1u64 << 2) != 0 { 1 } else { 0u64 },
        u == if f & (1u64 << 3) == 1u64 << 3 { 1u64 << 2 } else { 0u64 },
    ensures
        (w | x | p | u) & 1 != 0 <==> f & 1 != 0 || f & 2 != 0 || f & 4 != 0,
        (w | x | p | u) & 2 != 0 <==> f & 2 != 0,
        (w | x | p | u) & 4 != 0 <==> f & 8 != 0,
        (w | x | p | u) & 0x8000_0000_0000_0000 != 0 <==> f & 4 == 0,
        (w | x | p | u) & 0x7fff_ffff_ffff_fff8 == 0,
{
}

proof fn lemma_each_shared_bit(f: u64, r: u64, w: u64, x: u64)
    by (bit_vector)
    requires
        r == if f & 1 == 1 { 1 } else { 0u64 },
        w == if f & (1u64 << 1) == 1u64 << 1 { 1u64 << 1 } else { 0u64 },
        x == if f & (1u64 << 2) == 1u64 << 2 { 1u64 << 2 } else { 0u64 },
    ensures
        (r | w | x) & 1 != 0 <==> f & 1 != 0,
        (r | w | x) & 2 != 0 <==> f & 2 != 0,
        (r | w | x) & 4 != 0 <==> f & 4 != 0,
        (r | w | x) & 0xffff_ffff_ffff_fff8 == 0,
{
}

proof fn lemma_shared_bits(f: u64, r: u64, w: u64, x: u64)
    by (bit_vector)
    requires
        r == if f & 1 == 1 { 1 } else { 0u64 },
        w == if f & (1u64 << 1) == 1u64 << 1 { 1u64 << 1 } else { 0u64 },
        x == if f & (1u64 << 2) == 1u64 << 2 { 1u64 << 2 } else { 0u64 },
    ensures
        ((r | w | x) & (1u64 | 1u64 << 1 | 1u64 << 2) != 0) <==> (f & (1u64 | 1u64 << 1 | 1u64
            << 2) != 0),
        (r | w | x) & (1u64 << 4) != 1u64 << 4,
{
}

proof fn lemma_u8_bits(bits: u8, wanted: u8)
    by (bit_vector)
    ensures
        (bits & wanted) as u64 == (bits as u64) & (wanted as u64),
        (bits & (1u8 | 1u8 << 1 | 1u8 << 2) != 0) == ((bits as u64) & (1u64 | 1u64 << 1 | 1u64
            << 2) != 0),
        (1u8 << 1) as u64 == 1u64 << 1,
        (1u8 << 2) as u64 == 1u64 << 2,
{
}

/// The flags of a page table entry.
#[derive(Debug, Clone, Copy, PartialEq, Eq, Structural)]
pub struct PageTableFlags {
    pub bits: u64,
}

impl PageTableFlags {
    pub const NONE: u64 = 0;
    pub const PRESENT: u64 = 1;
    pub const WRITABLE: u64 = 1 << 1;
    pub const USER: u64 = 1 << 2;
    pub const PWT: u64 = 1 << 3;
    pub const PCD: u64 = 1 << 4;
    pub const ACCESSED: u64 = 1 << 5;
    pub const DIRTY: u64 = 1 << 6;
    pub const HUGE: u64 = 1 << 7;
    pub const GLOBAL: u64 = 1 << 8;
    pub const NO_EXEC: u64 = 1 << 63;
    /// Every flag that an entry can hold.
    pub const ALL: u64 = 0x8000_0000_0000_01ff;

    /// No bit but those of flags is set.
    pub open spec fn valid(self) -> bool {
        self.bits & PageTableFlags::ALL == self.bits
    }

    pub open spec fn spec_present(self) -> bool {
        has_all(self.bits, PageTableFlags::PRESENT)
    }

    /// The flags among the bits of an entry.
    pub fn from_bits_truncate(bits: u64) -> (flags: PageTableFlags)
        ensures
            flags.bits == bits & PageTableFlags::ALL,
            flags.valid(),
    {
        proof {
            lemma_and_twice(bits, PageTableFlags::ALL);
        }
        PageTableFlags { bits: bits & PageTableFlags::ALL }
    }

    pub fn bits(&self) -> (bits: u64)
        ensures
            bits == self.bits,
    {
        self.bits
    }

    pub fn contains(&self, wanted: u64) -> (all: bool)
        ensures
            all == has_all(self.bits, wanted),
    {
        self.bits & wanted == wanted
    }

    /// The bits of an entry that a mapping with these flags gets: it is present
    /// where it may be accessed at all.
    pub open spec fn mapping_bits(flags: PageMappingFlags) -> u64 {
        bits_if(has_all(flags.bits, PageMappingFlags::WRITE), PageTableFlags::WRITABLE) | bits_if(
            !has_all(flags.bits, PageMappingFlags::EXEC),
            PageTableFlags::NO_EXEC,
        ) | bits_if(flags.spec_accessible(), PageTableFlags::PRESENT) | bits_if(
            has_all(flags.bits, PageMappingFlags::USER),
            PageTableFlags::USER,
        )
    }

    /// The flags of the entries that hold a mapping.
    pub fn from_mapping_flags(flags: PageMappingFlags) -> (out: PageTableFlags)
        ensures
            out.bits == PageTableFlags::mapping_bits(flags),
            out.valid(),
            out.spec_present() == flags.spec_accessible(),
            !has_all(out.bits, PageTableFlags::HUGE),
            out.bits & 1 != 0 <==> flags.bits & 1 != 0 || flags.bits & 2 != 0 || flags.bits & 4
                != 0,
            out.bits & 2 != 0 <==> flags.bits & 2 != 0,
            out.bits & 4 != 0 <==> flags.bits & 8 != 0,
            out.bits & 0x8000_0000_0000_0000 != 0 <==> flags.bits & 4 == 0,
            out.bits & 0x7fff_ffff_ffff_fff8 == 0,
    {
        let mut bits: u64 = 0;
        if flags.contains(PageMappingFlags::WRITE) {
            bits = bits | PageTableFlags::WRITABLE;
        }
        if !flags.contains(PageMappingFlags::EXEC) {
            bits = bits | PageTableFlags::NO_EXEC;
        }
        if flags.accessible() {
            bits = bits | PageTableFlags::PRESENT;
        }
        if flags.contains(PageMappingFlags::USER) {
            bits = bits | PageTableFlags::USER;
        }
        proof {
            let w = bits_if(has_all(flags.bits, PageMappingFlags::WRITE), PageTableFlags::WRITABLE);
            let x = bits_if(!has_all(flags.bits, PageMappingFlags::EXEC), PageTableFlags::NO_EXEC);
            let p = bits_if(flags.spec_accessible(), PageTableFlags::PRESENT);
            let u = bits_if(has_all(flags.bits, PageMappingFlags::USER), PageTableFlags::USER);
            lemma_or_zero();
            assert(bits == w | x | p | u);
            lemma_mapping_flags(flags);
            lemma_mapping_bit_by_bit(flags);
        }
        PageTableFlags { bits }
    }

    pub fn present(&self) -> (present: bool)
        ensures
            present == self.spec_present(),
    {
        self.contains(PageTableFlags::PRESENT)
    }
}

/// A mapping that may be accessed is present, and no mapping changes how the tables
/// are walked.
pub proof fn lemma_mapping_flags(flags: PageMappingFlags)
    ensures
        (PageTableFlags { bits: PageTableFlags::mapping_bits(flags) }).valid(),
        (PageTableFlags { bits: PageTableFlags::mapping_bits(flags) }).spec_present()
            == flags.spec_accessible(),
        !has_all(PageTableFlags::mapping_bits(flags), PageTableFlags::HUGE),
{
    lemma_mapping_bits(
        bits_if(has_all(flags.bits, PageMappingFlags::WRITE), PageTableFlags::WRITABLE),
        bits_if(!has_all(flags.bits, PageMappingFlags::EXEC), PageTableFlags::NO_EXEC),
        bits_if(flags.spec_accessible(), PageTableFlags::PRESENT),
        bits_if(has_all(flags.bits, PageMappingFlags::USER), PageTableFlags::USER),
    );
}

/// Each flag of an entry comes from its own flags of the mapping, whatever the others are:
/// the entry is present where the mapping may be read, written or executed, writable where
/// it may be written, for user mode where the mapping is, and not executable where the
/// mapping may not be executed. No other bit is set.
pub proof fn lemma_mapping_bit_by_bit(flags: PageMappingFlags)
    ensures
        ({
            let bits = PageTableFlags::mapping_bits(flags);
            &&& bits & 1 != 0 <==> flags.bits & 1 != 0 || flags.bits & 2 != 0 || flags.bits & 4
                != 0
            &&& bits & 2 != 0 <==> flags.bits & 2 != 0
            &&& bits & 4 != 0 <==> flags.bits & 8 != 0
            &&& bits & 0x8000_0000_0000_0000 != 0 <==> flags.bits & 4 == 0
            &&& bits & 0x7fff_ffff_ffff_fff8 == 0
        }),
{
    let f = flags.bits;
    lemma_each_mapping_bit(
        f,
        if f & (1u64 << 1) == 1u64 << 1 { 1u64 << 1 } else { 0 },
        if f & (1u64 << 2) == 1u64 << 2 { 0 } else { 1u64 << 63 },
        if f & (1u64 | 1u64 << 1 | 1u64 << 2) != 0 { 1 } else { 0 },
        if f & (1u64 << 3) == 1u64 << 3 { 1u64 << 2 } else { 0 },
    );
}

/// A mapping of shared memory may be read, written and executed where the shared memory may
/// be, each for itself. It is not for user mode, and has no other flag.
pub proof fn lemma_shared_bit_by_bit(flags: SMemFlags)
    ensures
        ({
            let bits = PageMappingFlags::spec_from_shared_flags(flags).bits;
            &&& bits & 1 != 0 <==> flags.bits as u64 & 1 != 0
            &&& bits & 2 != 0 <==> flags.bits as u64 & 2 != 0
            &&& bits & 4 != 0 <==> flags.bits as u64 & 4 != 0
            &&& bits & 0xffff_ffff_ffff_fff8 == 0
        }),
{
    let f = flags.bits as u64;
    lemma_u8_bits(0, 0);
    lemma_each_shared_bit(
        f,
        if f & 1 == 1 { 1 } else { 0 },
        if f & (1u64 << 1) == 1u64 << 1 { 1u64 << 1 } else { 0 },
        if f & (1u64 << 2) == 1u64 << 2 { 1u64 << 2 } else { 0 },
    );
}

/// What may be done with mapped memory, and how it is mapped.
#[derive(Debug, Clone, Copy, PartialEq, Eq, Structural)]
pub struct PageMappingFlags {
    pub bits: u64,
}

impl PageMappingFlags {
    pub const NONE: u64 = 0;
    pub const READ: u64 = 1;
    pub const WRITE: u64 = 1 << 1;
    pub const EXEC: u64 = 1 << 2;
    pub const USER: u64 = 1 << 3;
    /// The size that was asked for is mapped, not the size that was allocated.
    pub const EXACT_SIZE: u64 = 1 << 4;
    /// Every flag that a mapping can have.
    pub const ALL: u64 = 0x1f;

    /// Whether the memory may be accessed at all.
    pub open spec fn spec_accessible(self) -> bool {
        has_some(
            self.bits,
            PageMappingFlags::READ | PageMappingFlags::WRITE | PageMappingFlags::EXEC,
        )
    }

    /// Whether the size that was asked for is mapped.
    pub open spec fn exact(self) -> bool {
        has_all(self.bits, PageMappingFlags::EXACT_SIZE)
    }

    pub fn from_bits_truncate(bits: u64) -> (flags: PageMappingFlags)
        ensures
            flags.bits == bits & PageMappingFlags::ALL,
    {
        PageMappingFlags { bits: bits & PageMappingFlags::ALL }
    }

    pub fn contains(&self, wanted: u64) -> (all: bool)
        ensures
            all == has_all(self.bits, wanted),
    {
        self.bits & wanted == wanted
    }

    /// Whether the memory may be accessed at all.
    pub fn accessible(&self) -> (accessible: bool)
        ensures
            accessible == self.spec_accessible(),
    {
        self.bits & (PageMappingFlags::READ | PageMappingFlags::WRITE | PageMappingFlags::EXEC) != 0
    }

    pub open spec fn spec_from_shared_flags(flags: SMemFlags) -> PageMappingFlags {
        PageMappingFlags {
            bits: bits_if(
                has_all(flags.bits as u64, SMemFlags::READ as u64),
                PageMappingFlags::READ,
            ) | bits_if(
                has_all(flags.bits as u64, SMemFlags::WRITE as u64),
                PageMappingFlags::WRITE,
            ) | bits_if(
                has_all(flags.bits as u64, SMemFlags::EXEC as u64),
                PageMappingFlags::EXEC,
            ),
        }
    }

    /// What a mapping of shared memory allows is what the shared memory allows.
    pub fn from_shared_flags(flags: SMemFlags) -> (out: PageMappingFlags)
        ensures
            out == PageMappingFlags::spec_from_shared_flags(flags),
            out.spec_accessible() == flags.spec_accessible(),
            !out.exact(),
            out.bits & 1 != 0 <==> flags.bits as u64 & 1 != 0,
            out.bits & 2 != 0 <==> flags.bits as u64 & 2 != 0,
            out.bits & 4 != 0 <==> flags.bits as u64 & 4 != 0,
            out.bits & 0xffff_ffff_ffff_fff8 == 0,
    {
        let mut bits: u64 = 0;
        if flags.contains(SMemFlags::READ) {
            bits = bits | PageMappingFlags::READ;
        }
        if flags.contains(SMemFlags::WRITE) {
            bits = bits | PageMappingFlags::WRITE;
        }
        if flags.contains(SMemFlags::EXEC) {
            bits = bits | PageMappingFlags::EXEC;
        }
        proof {
            let f = flags.bits as u64;
            let r = bits_if(has_all(f, 1), PageMappingFlags::READ);
            let w = bits_if(has_all(f, SMemFlags::WRITE as u64), PageMappingFlags::WRITE);
            let x = bits_if(has_all(f, SMemFlags::EXEC as u64), PageMappingFlags::EXEC);
            lemma_or_zero();
            lemma_u8_bits(0, 0);
            lemma_shared_bits(f, r, w, x);
            lemma_shared_bit_by_bit(flags);
            assert(bits == r | w | x);
        }
        PageMappingFlags { bits }
    }
}

/// What may be done with shared memory.
#[derive(Debug, Clone, Copy, PartialEq, Eq, Structural)]
pub struct SMemFlags {
    pub bits: u8,
}

impl SMemFlags {
    pub const NONE: u8 = 0;
    pub const READ: u8 = 1;
    pub const WRITE: u8 = 1 << 1;
    pub const EXEC: u8 = 1 << 2;
    /// Every flag that shared memory can have.
    pub const ALL: u8 = 7;

    /// Whether the memory may be accessed at all.
    pub open spec fn spec_accessible(self) -> bool {
        has_some(self.bits as u64, 1u64 | 1u64 << 1 | 1u64 << 2)
    }

    pub fn from_bits_truncate(bits: u8) -> (flags: SMemFlags)
        ensures
            flags.bits == bits & SMemFlags::ALL,
    {
        SMemFlags { bits: bits & SMemFlags::ALL }
    }

    pub fn contains(&self, wanted: u8) -> (all: bool)
        ensures
            all == has_all(self.bits as u64, wanted as u64),
    {
        proof {
            lemma_u8_bits(self.bits, wanted);
        }
        self.bits & wanted == wanted
    }

    /// Whether the memory may be accessed at all.
    pub fn accessible(&self) -> (accessible: bool)
        ensures
            accessible == self.spec_accessible(),
    {
        proof {
            lemma_u8_bits(self.bits, 0);
        }
        self.bits & (SMemFlags::READ | SMemFlags::WRITE | SMemFlags::EXEC) != 0
    }
}

} // verus!
