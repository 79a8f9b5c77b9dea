//! Page sizes, frames and ranges of addresses.
use vstd::prelude::*;
use vstd::arithmetic::power2;

verus! {

/// Size of the smallest page in bytes.
pub const PAGE_SIZE: u64 = 4096;

/// The sizes of pages that the processor knows.
#[derive(Debug, Clone, Copy, PartialEq, Eq, PartialOrd, Ord, Structural)]
pub enum PageSize {
    K4,
    M2,
    G1,
}

impl PageSize {
    /// The size in bytes.
    pub open spec fn bytes(self) -> u64 {
        match self {
            PageSize::K4 => 0x1000,
            PageSize::M2 => 0x20_0000,
            PageSize::G1 => 0x4000_0000,
        }
    }

    pub fn as_u64(self) -> (size: u64)
        ensures
            size == self.bytes(),
    {
        match self {
            PageSize::K4 => 0x1000,
            PageSize::M2 => 0x20_0000,
            PageSize::G1 => 0x4000_0000,
        }
    }

    /// The page size of exactly `size` bytes.
    pub fn try_from_u64(size: u64) -> (page: Option<PageSize>)
        ensures
            page matches Some(p) ==> p.bytes() == size,
            page is None ==> forall|p: PageSize| #![trigger p.bytes()] p.bytes() != size,
    {
        if size == 0x1000 {
            Some(PageSize::K4)
        } else if size == 0x20_0000 {
            Some(PageSize::M2)
        } else if size == 0x4000_0000 {
            Some(PageSize::G1)
        } else {
            None
        }
    }

    pub open spec fn spec_smaller(self, other: PageSize) -> PageSize {
        if self.bytes() <= other.bytes() {
            self
        } else {
            other
        }
    }

    /// The smaller of two page sizes.
    pub fn smaller(self, other: PageSize) -> (page: PageSize)
        ensures
            page == self.spec_smaller(other),
    {
        if self.as_u64() <= other.as_u64() {
            self
        } else {
            other
        }
    }
}

/// `n` rounded up to a multiple of `align`.
pub fn align_up(n: u64, align: u64) -> (aligned: u64)
    requires
        align > 0,
        n + align - 1 <= u64::MAX,
    ensures
        aligned % align == 0,
        n <= aligned < n + align,
{
    let rest: u64 = n % align;
    if rest == 0 {
        n
    } else {
        proof {
            let q = n as int / align as int;
            vstd::arithmetic::div_mod::lemma_fundamental_div_mod(n as int, align as int);
            vstd::arithmetic::div_mod::lemma_mod_bound(n as int, align as int);
            assert(n - rest + align == align * (q + 1)) by (nonlinear_arith)
                requires
                    n == align * q + rest,
            ;
            vstd::arithmetic::div_mod::lemma_mod_multiples_basic(q + 1, align as int);
            vstd::arithmetic::mul::lemma_mul_is_commutative(q + 1, align as int);
        }
        n - rest + align
    }
}

/// `n` rounded down to a multiple of `align`.
pub fn align_down(n: u64, align: u64) -> (aligned: u64)
    requires
        align > 0,
    ensures
        aligned % align == 0,
        aligned <= n < aligned + align,
{
    let rest: u64 = n % align;
    proof {
        let q = n as int / align as int;
        vstd::arithmetic::div_mod::lemma_fundamental_div_mod(n as int, align as int);
        vstd::arithmetic::div_mod::lemma_mod_bound(n as int, align as int);
        assert(n - rest == align * q);
        vstd::arithmetic::div_mod::lemma_mod_multiples_basic(q, align as int);
        vstd::arithmetic::mul::lemma_mul_is_commutative(q, align as int);
    }
    n - rest
}

/// The size of the largest page that is no larger than `n`, or zero where `n` is
/// smaller than every page.
pub open spec fn spec_align_down_to_page_size(n: u64) -> u64 {
    if n >= PageSize::G1.bytes() {
        PageSize::G1.bytes()
    } else if n >= PageSize::M2.bytes() {
        PageSize::M2.bytes()
    } else if n >= PageSize::K4.bytes() {
        PageSize::K4.bytes()
    } else {
        0
    }
}

/// The size of the largest page that is no larger than `n`, or zero.
pub fn align_down_to_page_size(n: u64) -> (size: u64)
    ensures
        size == spec_align_down_to_page_size(n),
{
    if n >= 0x4000_0000 {
        0x4000_0000
    } else if n >= 0x20_0000 {
        0x20_0000
    } else if n >= 0x1000 {
        0x1000
    } else {
        0
    }
}

/// The number that bits `low` to `high` of `n` hold, `high` excluded.
pub fn get_bits(n: u64, low: u64, high: u64) -> (bits: u64)
    requires
        low < high <= 64,
        high - low < 64,
    ensures
        bits == (n as nat / power2::pow2(low as nat)) % power2::pow2((high - low) as nat),
{
    let width: u64 = high - low;
    proof {
        vstd::bits::lemma_u64_shr_is_div(n, low);
        power2::lemma_pow2_pos(width as nat);
        power2::lemma_pow2_strictly_increases(width as nat, 64);
        power2::lemma2_to64_rest();
        power2::lemma2_to64();
        vstd::bits::lemma_u64_shl_is_mul(1, width);
    }
    (n >> low) % (1u64 << width)
}

/// The largest page that can be taken off the front of a range: it starts at an
/// address that is a multiple of its size and does not reach past the end.
pub open spec fn take_size(addr: u64, size: u64) -> Option<PageSize> {
    if addr % PageSize::G1.bytes() == 0 && size >= PageSize::G1.bytes() {
        Some(PageSize::G1)
    } else if addr % PageSize::M2.bytes() == 0 && size >= PageSize::M2.bytes() {
        Some(PageSize::M2)
    } else if addr % PageSize::K4.bytes() == 0 && size >= PageSize::K4.bytes() {
        Some(PageSize::K4)
    } else {
        None
    }
}

fn range_take_size(addr: u64, size: u64) -> (page: Option<PageSize>)
    ensures
        page == take_size(addr, size),
{
    if addr % 0x4000_0000 == 0 && size >= 0x4000_0000 {
        Some(PageSize::G1)
    } else if addr % 0x20_0000 == 0 && size >= 0x20_0000 {
        Some(PageSize::M2)
    } else if addr % 0x1000 == 0 && size >= 0x1000 {
        Some(PageSize::K4)
    } else {
        None
    }
}

/// Whether a page of size `page` can be taken off the front of a range.
pub open spec fn can_take(addr: u64, size: u64, page: PageSize) -> bool {
    take_size(addr, size) matches Some(largest) && page.bytes() <= largest.bytes()
}

/// What lies at the front of a range can be cut off in any smaller page too.
pub proof fn lemma_can_take(addr: u64, size: u64, page: PageSize)
    requires
        can_take(addr, size, page),
    ensures
        page.bytes() <= size,
        addr % page.bytes() == 0,
{
}

/// A frame of physical memory, by its size and the address of its first byte.
#[derive(Debug, Clone, Copy, PartialEq, Eq, Structural)]
pub enum PhysFrame {
    K4(u64),
    M2(u64),
    G1(u64),
}

impl PhysFrame {
    pub open spec fn spec_new(addr: u64, size: PageSize) -> PhysFrame {
        match size {
            PageSize::K4 => PhysFrame::K4(addr),
            PageSize::M2 => PhysFrame::M2(addr),
            PageSize::G1 => PhysFrame::G1(addr),
        }
    }

    pub fn new(addr: u64, size: PageSize) -> (frame: PhysFrame)
        ensures
            frame == PhysFrame::spec_new(addr, size),
    {
        match size {
            PageSize::K4 => PhysFrame::K4(addr),
            PageSize::M2 => PhysFrame::M2(addr),
            PageSize::G1 => PhysFrame::G1(addr),
        }
    }

    pub open spec fn start(self) -> u64 {
        match self {
            PhysFrame::K4(addr) => addr,
            PhysFrame::M2(addr) => addr,
            PhysFrame::G1(addr) => addr,
        }
    }

    pub fn start_addr(&self) -> (addr: u64)
        ensures
            addr == self.start(),
    {
        match *self {
            PhysFrame::K4(addr) => addr,
            PhysFrame::M2(addr) => addr,
            PhysFrame::G1(addr) => addr,
        }
    }
}

/// A page of virtual memory, by its size and the address of its first byte.
#[derive(Debug, Clone, Copy, PartialEq, Eq, Structural)]
pub enum VirtFrame {
    K4(u64),
    M2(u64),
    G1(u64),
}

impl VirtFrame {
    pub open spec fn spec_new(addr: u64, size: PageSize) -> VirtFrame {
        match size {
            PageSize::K4 => VirtFrame::K4(addr),
            PageSize::M2 => VirtFrame::M2(addr),
            PageSize::G1 => VirtFrame::G1(addr),
        }
    }

    pub fn new(addr: u64, size: PageSize) -> (frame: VirtFrame)
        ensures
            frame == VirtFrame::spec_new(addr, size),
    {
        match size {
            PageSize::K4 => VirtFrame::K4(addr),
            PageSize::M2 => VirtFrame::M2(addr),
            PageSize::G1 => VirtFrame::G1(addr),
        }
    }

    pub open spec fn start(self) -> u64 {
        match self {
            VirtFrame::K4(addr) => addr,
            VirtFrame::M2(addr) => addr,
            VirtFrame::G1(addr) => addr,
        }
    }

    pub open spec fn page(self) -> PageSize {
        match self {
            VirtFrame::K4(_) => PageSize::K4,
            VirtFrame::M2(_) => PageSize::M2,
            VirtFrame::G1(_) => PageSize::G1,
        }
    }

    /// The address behind the page.
    pub open spec fn end(self) -> int {
        self.start() + self.page().bytes()
    }

    pub fn start_addr(&self) -> (addr: u64)
        ensures
            addr == self.start(),
    {
        match *self {
            VirtFrame::K4(addr) => addr,
            VirtFrame::M2(addr) => addr,
            VirtFrame::G1(addr) => addr,
        }
    }
}

/// A range of physical addresses.
#[derive(Debug, Clone, Copy, PartialEq, Eq, Structural)]
pub struct PhysRange {
    pub addr: u64,
    pub size: u64,
}

impl PhysRange {
    /// The end of the range is an address too.
    pub open spec fn wf(self) -> bool {
        self.addr + self.size <= u64::MAX
    }

    /// The range without its first `page`.
    pub open spec fn after(self, page: PageSize) -> PhysRange {
        PhysRange {
            addr: (self.addr + page.bytes()) as u64,
            size: (self.size - page.bytes()) as u64,
        }
    }

    pub fn new(addr: u64, size: u64) -> (range: PhysRange)
        ensures
            range == (PhysRange { addr, size }),
    {
        PhysRange { addr, size }
    }

    pub fn size(&self) -> (size: u64)
        ensures
            size == self.size,
    {
        self.size
    }

    /// The largest page that can be taken off the front.
    pub fn get_take_size(&self) -> (page: Option<PageSize>)
        ensures
            page == take_size(self.addr, self.size),
    {
        range_take_size(self.addr, self.size)
    }

    /// Takes a page off the front, if one of this size can be taken.
    pub fn take(&mut self, size: PageSize) -> (frame: Option<PhysFrame>)
        requires
            old(self).wf(),
        ensures
            final(self).wf(),
            can_take(old(self).addr, old(self).size, size) ==> {
                &&& frame == Some(PhysFrame::spec_new(old(self).addr, size))
                &&& *final(self) == old(self).after(size)
            },
            !can_take(old(self).addr, old(self).size, size) ==> {
                &&& frame is None
                &&& *final(self) == *old(self)
            },
    {
        let largest = match self.get_take_size() {
            Some(largest) => largest,
            None => {
                return None;
            },
        };
        if size.as_u64() > largest.as_u64() {
            None
        } else {
            let frame = PhysFrame::new(self.addr, size);
            self.addr = self.addr + size.as_u64();
            self.size = self.size - size.as_u64();
            Some(frame)
        }
    }
}

/// A range of virtual addresses.
#[derive(Debug, Clone, Copy, PartialEq, Eq, Structural)]
pub struct VirtRange {
    pub addr: u64,
    pub size: u64,
}

impl VirtRange {
    /// The end of the range is an address too.
    pub open spec fn wf(self) -> bool {
        self.addr + self.size <= u64::MAX
    }

    /// The address behind the range.
    pub open spec fn end(self) -> int {
        self.addr + self.size
    }

    /// Whether an address lies in the range.
    pub open spec fn holds(self, addr: u64) -> bool {
        self.addr <= addr < self.end()
    }

    /// Whether no address lies in both ranges.
    pub open spec fn disjoint(self, other: VirtRange) -> bool {
        self.end() <= other.addr || other.end() <= self.addr
    }

    /// The order of ranges: by address, then by size.
    pub open spec fn before(self, other: VirtRange) -> bool {
        self.addr < other.addr || (self.addr == other.addr && self.size < other.size)
    }

    /// The range without its first `page`.
    pub open spec fn after(self, page: PageSize) -> VirtRange {
        VirtRange {
            addr: (self.addr + page.bytes()) as u64,
            size: (self.size - page.bytes()) as u64,
        }
    }

    /// Whether this is the smallest range of whole pages that holds `inner`.
    pub open spec fn is_page_cover(self, inner: VirtRange) -> bool {
        &&& self.addr % PAGE_SIZE == 0
        &&& self.size % PAGE_SIZE == 0
        &&& self.addr <= inner.addr < self.addr + PAGE_SIZE
        &&& inner.end() <= self.end() < inner.end() + PAGE_SIZE
    }

    pub fn new(addr: u64, size: u64) -> (range: VirtRange)
        ensures
            range == (VirtRange { addr, size }),
    {
        VirtRange { addr, size }
    }

    pub fn addr(&self) -> (addr: u64)
        ensures
            addr == self.addr,
    {
        self.addr
    }

    pub fn size(&self) -> (size: u64)
        ensures
            size == self.size,
    {
        self.size
    }

    /// The address behind the range.
    pub fn end_addr(&self) -> (addr: u64)
        requires
            self.wf(),
        ensures
            addr == self.end(),
    {
        self.addr + self.size
    }

    pub fn contains(&self, addr: u64) -> (inside: bool)
        ensures
            inside == self.holds(addr),
    {
        self.addr <= addr && addr - self.addr < self.size
    }

    /// Whether this range comes before the other in the order of ranges.
    pub fn is_before(&self, other: &VirtRange) -> (before: bool)
        ensures
            before == self.before(*other),
    {
        self.addr < other.addr || (self.addr == other.addr && self.size < other.size)
    }

    /// The smallest range of whole pages that holds this one.
    pub fn aligned(&self) -> (range: VirtRange)
        requires
            self.end() + PAGE_SIZE - 1 <= u64::MAX,
        ensures
            range.is_page_cover(*self),
            range.wf(),
    {
        let start: u64 = align_down(self.addr, PAGE_SIZE);
        let end: u64 = align_up(self.addr + self.size, PAGE_SIZE);
        VirtRange { addr: start, size: end - start }
    }

    /// The largest page that can be taken off the front.
    pub fn get_take_size(&self) -> (page: Option<PageSize>)
        ensures
            page == take_size(self.addr, self.size),
    {
        range_take_size(self.addr, self.size)
    }

    /// Takes a page off the front, if one of this size can be taken.
    pub fn take(&mut self, size: PageSize) -> (frame: Option<VirtFrame>)
        requires
            old(self).wf(),
        ensures
            final(self).wf(),
            can_take(old(self).addr, old(self).size, size) ==> {
                &&& frame == Some(VirtFrame::spec_new(old(self).addr, size))
                &&& *final(self) == old(self).after(size)
            },
            !can_take(old(self).addr, old(self).size, size) ==> {
                &&& frame is None
                &&& *final(self) == *old(self)
            },
    {
        let largest = match self.get_take_size() {
            Some(largest) => largest,
            None => {
                return None;
            },
        };
        if size.as_u64() > largest.as_u64() {
            None
        } else {
            let frame = VirtFrame::new(self.addr, size);
            self.addr = self.addr + size.as_u64();
            self.size = self.size - size.as_u64();
            Some(frame)
        }
    }
}

/// Memory that the zone manager handed out: where the kernel sees it, where it
/// lies in physical memory, and how long it is.
#[derive(Debug, Clone, Copy, PartialEq, Eq, Structural)]
pub struct Allocation {
    pub virt: u64,
    pub phys: u64,
    pub len: u64,
}

impl Allocation {
    /// Whole pages, none of which ends past the last address.
    pub open spec fn wf(self) -> bool {
        &&& self.phys % PAGE_SIZE == 0
        &&& self.len % PAGE_SIZE == 0
        &&& self.phys + self.len <= u64::MAX
        &&& self.virt + self.len <= u64::MAX
    }

    pub open spec fn phys_range(self) -> PhysRange {
        PhysRange { addr: self.phys, size: self.len }
    }

    /// Whether the memory is made of whole pages, none of which ends past the last
    /// address.
    pub fn is_whole_pages(&self) -> (whole: bool)
        ensures
            whole == self.wf(),
    {
        self.phys % PAGE_SIZE == 0 && self.len % PAGE_SIZE == 0 && self.len <= u64::MAX - self.phys
            && self.len <= u64::MAX - self.virt
    }

    /// The address at which the kernel sees the memory.
    pub fn as_u64(&self) -> (addr: u64)
        ensures
            addr == self.virt,
    {
        self.virt
    }

    pub fn len(&self) -> (len: u64)
        ensures
            len == self.len,
    {
        self.len
    }

    /// The physical memory behind the allocation.
    pub fn as_phys_zone(&self) -> (range: PhysRange)
        ensures
            range == self.phys_range(),
    {
        PhysRange { addr: self.phys, size: self.len }
    }
}

} // verus!
