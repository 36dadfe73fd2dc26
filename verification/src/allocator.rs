//! First-fit memory allocator.
use vstd::prelude::*;
use vstd::arithmetic::power2::{pow2, lemma_pow2_strictly_increases, lemma2_to64, lemma2_to64_rest};
use vstd::std_specs::bits::{u64_leading_zeros, axiom_u64_leading_zeros};
use vstd::bits::lemma_u64_shl_is_mul;
use crate::result::Result;
use crate::print::{dec_digits, hex_min, push_dec, push_hex, push_str};
use crate::uefi::{EfiMemoryDescriptor, EfiMemoryType, MemoryMapHolder};

verus! {

/// `n` is a power of two.
pub open spec fn is_power_of_two(n: int) -> bool {
    exists|k: nat| #[trigger] pow2(k) == n
}

/// The smallest power of two that is at least `v` (for `v >= 1`): `p` is a
/// power of two with `v <= p < 2 * v`.
pub open spec fn is_nearest_pow2_above(v: int, p: int) -> bool {
    is_power_of_two(p) && v <= p && p < 2 * v
}

/// The largest value whose nearest power of two above it still fits in a `usize`.
pub open spec fn max_roundable() -> int {
    pow2((usize::BITS - 1) as nat) as int
}

/// `x << rhs`, or `None` when `rhs` is at least the bit width of `usize`
/// (as `usize::checked_shl`).
fn checked_shl_usize(x: usize, rhs: u32) -> (r: Option<usize>)
    ensures
        rhs < usize::BITS ==> r == Some(x << rhs),
        rhs >= usize::BITS ==> r is None,
{
    if rhs < usize::BITS {
        Some(x << rhs)
    } else {
        None
    }
}

proof fn lemma_top_bit_bounds(i: u64, s: u64, t: u64)
    requires
        1 <= s <= 64,
        t == s - 1,
        (i >> t) & 1u64 != 0u64,
    ensures
        i >= (1u64 << t),
{
    assert((i >> t) & 1u64 != 0u64 && t < 64 ==> i >= (1u64 << t)) by (bit_vector);
}

proof fn lemma_shr_zero_bound(i: u64, s: u64)
    requires
        s < 64,
        i >> s == 0,
    ensures
        i < (1u64 << s),
{
    assert(s < 64 && i >> s == 0 ==> i < (1u64 << s)) by (bit_vector);
}

proof fn lemma_pow2_values(k: nat)
    requires k < 64,
    ensures
        pow2(k) == (1u64 << (k as u64)),
        pow2(k) <= 0x8000_0000_0000_0000,
{
    lemma2_to64();
    lemma2_to64_rest();
    lemma_u64_shl_is_mul(1u64, k as u64);
    if k < 63 {
        lemma_pow2_strictly_increases(k, 63);
    }
}

/// Rounds `v` up to the nearest power of two.
///
/// Fails with "Out of range" when `v` is 0 or when the result would not fit
/// in a `usize`.
pub fn round_up_to_nearest_pow2(v: usize) -> (r: Result<usize>)
    ensures
        r is Ok <==> 1 <= v <= max_roundable(),
        r matches Ok(p) ==> is_nearest_pow2_above(v as int, p as int),
        r matches Err(e) ==> e@ == "Out of range"@,
{
    let lz = (v.wrapping_sub(1) as u64).leading_zeros();
    proof {
        axiom_u64_leading_zeros(v.wrapping_sub(1) as u64);
        assert(usize::BITS == 32 || usize::BITS == 64);
    }
    let shift = 64 - lz;
    let r = checked_shl_usize(1usize, shift).ok_or("Out of range");
    proof {
        let i = v.wrapping_sub(1) as u64;
        let lz64 = u64_leading_zeros(i);
        let s = 64 - lz64;
        assert(s == shift);
        lemma2_to64();
        lemma2_to64_rest();
        if s >= 1 {
            lemma_top_bit_bounds(i, s as u64, (s - 1) as u64);
            lemma_pow2_values((s - 1) as nat);
        }
        if s < 64 {
            lemma_shr_zero_bound(i, s as u64);
            lemma_pow2_values(s as nat);
        }
        if usize::BITS == 32 {
            assert(i <= 0xffff_ffff);
        }
        if 1 <= v <= max_roundable() {
            assert(i == v - 1);
            assert(s < usize::BITS);
            vstd::bits::lemma_usize_shl_is_mul(1usize, shift as usize);
            assert((1usize << shift) == pow2(s as nat));
            if s > 0 {
                vstd::arithmetic::power2::lemma_pow2_unfold(s as nat);
            }
            assert(is_power_of_two(pow2(s as nat) as int));
            assert(is_nearest_pow2_above(v as int, pow2(s as nat) as int));
        }
    }
    r
}

/// The nearest power of two at or above `v` (meaningful for `1 <= v <= max_roundable()`).
pub open spec fn nearest_pow2_above(v: int) -> int {
    choose|p: int| is_nearest_pow2_above(v, p)
}

/// Of two powers of two, the smaller is at most half the larger.
pub proof fn lemma_pow2_gap(p: int, q: int)
    requires
        is_power_of_two(p),
        is_power_of_two(q),
        p < q,
    ensures
        2 * p <= q,
{
    let a = choose|k: nat| pow2(k) == p;
    let b = choose|k: nat| pow2(k) == q;
    if a >= b {
        if a > b {
            lemma_pow2_strictly_increases(b, a);
        }
        assert(false);
    }
    vstd::arithmetic::power2::lemma_pow2_unfold(a + 1);
    if a + 1 < b {
        lemma_pow2_strictly_increases(a + 1, b);
    }
}

/// The nearest power of two above `v` is unique and is below every other
/// power of two at or above `v`.
pub proof fn lemma_nearest_pow2_unique(v: int, p: int, q: int)
    requires
        is_nearest_pow2_above(v, p),
        is_power_of_two(q),
        v <= q,
    ensures
        p <= q,
        q < 2 * v ==> p == q,
{
    if q < p {
        lemma_pow2_gap(q, p);
    }
    if p < q {
        lemma_pow2_gap(p, q);
    }
}

proof fn lemma_pow2_is_power_of_two(k: nat)
    ensures
        is_power_of_two(pow2(k) as int),
{
}

/// Exact answer for `round_up_to_nearest_pow2`: on success the value is the
/// nearest power of two above `v`.
pub proof fn lemma_round_up_value(v: int, p: int)
    requires
        is_nearest_pow2_above(v, p),
    ensures
        nearest_pow2_above(v) == p,
{
    let c = nearest_pow2_above(v);
    assert(is_nearest_pow2_above(v, c));
    lemma_nearest_pow2_unique(v, c, p);
    lemma_nearest_pow2_unique(v, p, c);
}

/// A power of two that fits in a `usize` is at most `2^(usize::BITS - 1)`.
proof fn lemma_pow2_fits(k: nat)
    requires
        pow2(k) <= usize::MAX,
    ensures
        k < usize::BITS,
        pow2(k) <= pow2((usize::BITS - 1) as nat),
{
    lemma2_to64();
    assert(usize::BITS == 32 || usize::BITS == 64);
    if k >= usize::BITS {
        if k > usize::BITS {
            lemma_pow2_strictly_increases(usize::BITS as nat, k);
        }
        assert(false);
    }
    if k < usize::BITS - 1 {
        lemma_pow2_strictly_increases(k, (usize::BITS - 1) as nat);
    }
}

/// Checks whether `x` is a power of two.
pub fn is_power_of_two_usize(x: usize) -> (r: bool)
    ensures
        r == is_power_of_two(x as int),
{
    let mut k: u32 = 0;
    while k < usize::BITS
        invariant
            k <= usize::BITS,
            usize::BITS == 32 || usize::BITS == 64,
            forall|j: nat| j < k ==> pow2(j) != x,
        decreases usize::BITS - k,
    {
        proof {
            vstd::bits::lemma_usize_pow2_no_overflow(k as nat);
            vstd::bits::lemma_usize_shl_is_mul(1usize, k as usize);
        }
        if x == 1usize << k {
            return true;
        }
        k = k + 1;
    }
    proof {
        lemma2_to64();
        assert forall|j: nat| pow2(j) != x by {
            if j >= usize::BITS {
                if j > usize::BITS {
                    lemma_pow2_strictly_increases(usize::BITS as nat, j);
                }
            }
        }
    }
    false
}

/// Size and alignment of a memory request: the alignment is a power of two
/// and the size, rounded up to the alignment, does not exceed `isize::MAX`.
pub struct Layout {
    size: usize,
    align: usize,
}

impl Layout {
    /// The conditions under which a layout of `size` and `align` exists.
    pub open spec fn is_valid(size: int, align: int) -> bool {
        &&& is_power_of_two(align)
        &&& size <= isize::MAX - (align - 1)
    }

    #[verifier::type_invariant]
    spec fn inv(self) -> bool {
        Self::is_valid(self.size as int, self.align as int)
    }

    pub closed spec fn spec_size(&self) -> usize {
        self.size
    }

    pub closed spec fn spec_align(&self) -> usize {
        self.align
    }

    /// Builds a layout; `None` when the alignment is not a power of two or
    /// the size rounded up to the alignment would exceed `isize::MAX`.
    pub fn from_size_align(size: usize, align: usize) -> (r: Option<Layout>)
        ensures
            r is Some <==> Self::is_valid(size as int, align as int),
            r matches Some(l) ==> l.spec_size() == size && l.spec_align() == align,
    {
        if !is_power_of_two_usize(align) {
            return None;
        }
        proof {
            let k = choose|k: nat| pow2(k) == align;
            lemma_pow2_fits(k);
            lemma2_to64();
            lemma2_to64_rest();
            vstd::arithmetic::power2::lemma_pow2_pos(k);
            if usize::BITS == 64 {
                assert(isize::MAX == 0x7fff_ffff_ffff_ffff);
            } else {
                assert(isize::MAX == 0x7fff_ffff);
            }
        }
        if size > isize::MAX as usize - (align - 1) {
            return None;
        }
        Some(Layout { size, align })
    }

    /// The layout of one 4 KiB page aligned to 4 KiB.
    pub fn page_4k() -> (r: Layout)
        ensures
            r.spec_size() == 4096,
            r.spec_align() == 4096,
    {
        proof {
            lemma2_to64();
            assert(pow2(12) == 4096);
        }
        Layout { size: 4096, align: 4096 }
    }

    #[verifier::when_used_as_spec(spec_size)]
    pub fn size(&self) -> (r: usize)
        ensures
            r == self.spec_size(),
    {
        self.size
    }

    #[verifier::when_used_as_spec(spec_align)]
    pub fn align(&self) -> (r: usize)
        ensures
            r == self.spec_align(),
    {
        self.align
    }
}

/// Size in bytes of the header placed in front of every memory block.
pub const HEADER_SIZE: usize = 32;

/// The management record of one memory block: where its header starts, the
/// size of the whole block (header included) and whether it is handed out.
#[derive(Clone, Copy)]
pub struct Header {
    pub addr: usize,
    pub size: usize,
    pub is_allocated: bool,
}

/// The block's end address fits in the address space.
pub open spec fn block_fits(h: Header) -> bool {
    h.addr + h.size <= usize::MAX
}

/// The block size after rounding a request of `size` bytes.
pub open spec fn request_size(size: int) -> int {
    vstd::math::max(nearest_pow2_above(size), HEADER_SIZE as int)
}

/// The alignment used for a request aligned to `align`.
pub open spec fn request_align(align: int) -> int {
    vstd::math::max(align, HEADER_SIZE as int)
}

/// Block `h` can serve a request of `size` bytes aligned to `align`.
pub open spec fn can_serve(h: Header, size: int, align: int) -> bool {
    &&& 1 <= size <= max_roundable()
    &&& !h.is_allocated
    &&& h.size >= request_size(size) + 2 * HEADER_SIZE + request_align(align)
}

/// The address handed out when `h` serves the request: the highest address
/// aligned to the request's alignment that leaves room for the rounded size
/// before the block's end.
pub open spec fn placement(h: Header, size: int, align: int) -> int {
    let ra = request_align(align);
    ((h.addr + h.size - request_size(size)) / ra) * ra
}

/// The blocks that replace `h` once it serves the request: `h` shrunk to
/// the part before the new block, the allocated block (header then data),
/// and the free remainder after it when there is one.
pub open spec fn split_block(h: Header, size: int, align: int) -> Seq<Header> {
    let p = placement(h, size, align);
    let rs = request_size(size);
    let end = h.addr + h.size;
    let front = Header { addr: h.addr, size: (p - HEADER_SIZE - h.addr) as usize, is_allocated: false };
    let used = Header { addr: (p - HEADER_SIZE) as usize, size: (rs + HEADER_SIZE) as usize, is_allocated: true };
    let rest = Header { addr: (p + rs) as usize, size: (end - p - rs) as usize, is_allocated: false };
    if p + rs == end {
        seq![front, used]
    } else {
        seq![front, used, rest]
    }
}

/// The block list after block `i` serves the request.
pub open spec fn after_split(blocks: Seq<Header>, i: int, size: int, align: int) -> Seq<Header> {
    blocks.take(i) + split_block(blocks[i], size, align) + blocks.skip(i + 1)
}

/// The text describing header `h`: `Header @ <addr> { size: <size>,
/// is_allocated: <flag> }` with the address and size in hexadecimal,
/// zero-padded to 16 digits.
pub open spec fn header_text(h: Header) -> Seq<char> {
    "Header @ 0x"@ + hex_min(h.addr as nat, 16) + " { size: 0x"@ + hex_min(h.size as nat, 16)
        + ", is_allocated: "@ + (if h.is_allocated { "true"@ } else { "false"@ }) + " }"@
}

impl Header {
    /// The text describing the header (see `header_text`).
    pub fn format(&self) -> (r: Vec<char>)
        ensures
            r@ == header_text(*self),
    {
        let mut out: Vec<char> = Vec::new();
        push_str(&mut out, "Header @ 0x");
        push_hex(&mut out, self.addr as u64, 16);
        push_str(&mut out, " { size: 0x");
        push_hex(&mut out, self.size as u64, 16);
        push_str(&mut out, ", is_allocated: ");
        push_str(&mut out, if self.is_allocated() { "true" } else { "false" });
        push_str(&mut out, " }");
        out
    }

    /// A fresh, empty, free header located at `addr`.
    fn new_from_addr(addr: usize) -> (r: Header)
        ensures
            r == (Header { addr, size: 0, is_allocated: false }),
    {
        Header { addr, size: 0, is_allocated: false }
    }

    /// The block can hold a rounded request of `size` bytes aligned to
    /// `align`, with room for two headers and the alignment slack.
    fn can_provide(&self, size: usize, align: usize) -> (r: bool)
        requires
            size + HEADER_SIZE * 2 + align <= usize::MAX,
        ensures
            r == (self.size >= size + HEADER_SIZE * 2 + align),
    {
        self.size >= size + HEADER_SIZE * 2 + align
    }

    fn is_allocated(&self) -> (r: bool)
        ensures
            r == self.is_allocated,
    {
        self.is_allocated
    }

    /// The address just past the block.
    fn end_addr(&self) -> (r: usize)
        requires
            block_fits(*self),
        ensures
            r == self.addr + self.size,
    {
        self.addr + self.size
    }
}

/// Every block fits in the address space and is non-empty.
pub open spec fn blocks_wf(blocks: Seq<Header>) -> bool {
    forall|i: int| 0 <= i < blocks.len() ==> block_fits(#[trigger] blocks[i]) && blocks[i].size > 0
}

/// Rounding an address down to a power-of-two alignment by masking.
proof fn lemma_align_down(x: usize, a: usize, k: nat)
    requires
        a == pow2(k),
        k < usize::BITS,
    ensures
        (x & !((a - 1) as usize)) == (x as int / a as int) * a as int,
{
    vstd::bits::lemma_usize_low_bits_mask_is_mod(x, k);
    vstd::arithmetic::power2::lemma_pow2_pos(k);
    let m = (a - 1) as usize;
    assert(vstd::bits::low_bits_mask(k) == a - 1);
    assert((x & !m) + (x & m) == x) by (bit_vector);
    vstd::arithmetic::div_mod::lemma_fundamental_div_mod(x as int, a as int);
}

/// The requests `provide` accepts: the alignment is a power of two and,
/// for a size it can round, the room it asks of a block fits in a `usize`.
pub open spec fn request_ok(size: int, align: int) -> bool {
    &&& is_power_of_two(align)
    &&& (1 <= size <= max_roundable() ==> request_size(size) + 2 * HEADER_SIZE + request_align(align)
        <= usize::MAX)
}

/// A valid layout makes an acceptable request.
pub proof fn lemma_layout_request_ok(size: int, align: int)
    requires
        Layout::is_valid(size, align),
    ensures
        request_ok(size, align),
        1 <= size ==> size <= max_roundable(),
{
    lemma2_to64();
    lemma2_to64_rest();
    assert(usize::BITS == 32 || usize::BITS == 64);
    let top = pow2((usize::BITS - 1) as nat) as int;
    if usize::BITS == 64 {
        assert(isize::MAX == 0x7fff_ffff_ffff_ffff);
    } else {
        assert(isize::MAX == 0x7fff_ffff);
    }
    assert(top == isize::MAX + 1);
    lemma_pow2_is_power_of_two((usize::BITS - 1) as nat);
    lemma_pow2_is_power_of_two(5);
    assert(pow2(5) == 32);
    if 1 <= size {
        lemma_pow2_gap(align, top);
        let p = nearest_pow2_above(size);
        lemma_nearest_exists(size, (usize::BITS - 1) as nat);
        lemma_nearest_pow2_unique(size, p, top);
    }
}

/// The bounds on the rounded size and the alignment of an acceptable
/// request.
proof fn lemma_request_bounds(size: int, align: int)
    requires
        request_ok(size, align),
        1 <= size <= max_roundable(),
    ensures
        request_size(size) <= pow2((usize::BITS - 1) as nat),
        HEADER_SIZE <= request_size(size),
        is_power_of_two(request_align(align)),
        HEADER_SIZE <= request_align(align),
        request_size(size) + 2 * HEADER_SIZE + request_align(align) <= usize::MAX,
{
    lemma2_to64();
    lemma2_to64_rest();
    assert(usize::BITS == 32 || usize::BITS == 64);
    let top = pow2((usize::BITS - 1) as nat) as int;
    let p = nearest_pow2_above(size);
    lemma_pow2_is_power_of_two((usize::BITS - 1) as nat);
    lemma_nearest_exists(size, (usize::BITS - 1) as nat);
    lemma_nearest_pow2_unique(size, p, top);
    lemma_pow2_is_power_of_two(5);
    assert(pow2(5) == 32);
}

/// Some power of two at or above `v` below `2 * v` exists when `v` is at
/// most `2^k`.
proof fn lemma_nearest_exists(v: int, k: nat)
    requires
        1 <= v <= pow2(k),
    ensures
        is_nearest_pow2_above(v, nearest_pow2_above(v)),
    decreases k,
{
    vstd::arithmetic::power2::lemma_pow2_pos(k);
    if k == 0 {
        lemma2_to64();
        lemma_pow2_is_power_of_two(0);
        assert(is_nearest_pow2_above(v, pow2(0) as int));
    } else {
        vstd::arithmetic::power2::lemma_pow2_unfold(k);
        if v <= pow2((k - 1) as nat) {
            lemma_nearest_exists(v, (k - 1) as nat);
        } else {
            lemma_pow2_is_power_of_two(k);
            assert(is_nearest_pow2_above(v, pow2(k) as int));
        }
    }
}

/// Block `i` is the first block of the list that can serve the request.
pub open spec fn is_first_fit(blocks: Seq<Header>, size: int, align: int, i: int) -> bool {
    &&& 0 <= i < blocks.len()
    &&& can_serve(blocks[i], size, align)
    &&& forall|j: int| 0 <= j < i ==> !can_serve(#[trigger] blocks[j], size, align)
}

/// The index of the first block that can serve the request, if any.
pub open spec fn first_fit(blocks: Seq<Header>, size: int, align: int) -> Option<int> {
    if exists|i: int| is_first_fit(blocks, size, align, i) {
        Some(choose|i: int| is_first_fit(blocks, size, align, i))
    } else {
        None
    }
}

/// The first fitting block is unique.
pub proof fn lemma_first_fit_unique(blocks: Seq<Header>, size: int, align: int, i: int, j: int)
    requires
        is_first_fit(blocks, size, align, i),
        is_first_fit(blocks, size, align, j),
    ensures
        i == j,
{
    if i < j {
        assert(!can_serve(blocks[i], size, align));
    }
    if j < i {
        assert(!can_serve(blocks[j], size, align));
    }
}

/// When some block can serve the request, a first fitting block exists.
proof fn lemma_first_fit_exists(blocks: Seq<Header>, size: int, align: int, j: int)
    requires
        0 <= j < blocks.len(),
        can_serve(blocks[j], size, align),
    ensures
        exists|i: int| is_first_fit(blocks, size, align, i),
    decreases j,
{
    if exists|k: int| 0 <= k < j && can_serve(#[trigger] blocks[k], size, align) {
        let k = choose|k: int| 0 <= k < j && can_serve(#[trigger] blocks[k], size, align);
        lemma_first_fit_exists(blocks, size, align, k);
    } else {
        assert(is_first_fit(blocks, size, align, j));
    }
}

/// Where a served request lands: above the block's front header, with
/// the rounded request ending at or before the block's end, at the highest
/// multiple of the alignment that does so.
pub proof fn lemma_placement_facts(h: Header, size: int, align: int)
    requires
        block_fits(h),
        can_serve(h, size, align),
        request_ok(size, align),
    ensures
        placement(h, size, align) > h.addr + 2 * HEADER_SIZE,
        placement(h, size, align) + request_size(size) <= h.addr + h.size,
        placement(h, size, align) % request_align(align) == 0,
        h.addr + h.size < placement(h, size, align) + request_size(size) + request_align(align),
{
    lemma_request_bounds(size, align);
    let x = h.addr + h.size - request_size(size);
    let a = request_align(align);
    assert(x >= 0);
    assert(0 <= x % a < a);
    vstd::arithmetic::div_mod::lemma_fundamental_div_mod(x, a);
    assert((x / a) * a == x - x % a) by (nonlinear_arith)
        requires
            a > 0,
            x == a * (x / a) + x % a;
    vstd::arithmetic::div_mod::lemma_mod_multiples_basic(x / a, a);
}

/// Size in bytes of a UEFI page.
pub const UEFI_PAGE_SIZE: usize = 4096;

/// The region described by `d` fits in the address space.
pub open spec fn descriptor_fits(d: EfiMemoryDescriptor) -> bool {
    d.physical_start + d.number_of_pages * UEFI_PAGE_SIZE <= usize::MAX
}

/// The free block a conventional-memory descriptor contributes: its region,
/// minus the first page when it starts at address 0 (so that no block
/// contains the null address), and nothing when at most one page is left.
pub open spec fn free_region(d: EfiMemoryDescriptor) -> Option<Header> {
    let start0 = d.physical_start as int;
    let size0 = d.number_of_pages * UEFI_PAGE_SIZE;
    let start = if start0 == 0 { UEFI_PAGE_SIZE as int } else { start0 };
    let size = if start0 == 0 { vstd::math::max(size0 - UEFI_PAGE_SIZE, 0) } else { size0 };
    if size <= UEFI_PAGE_SIZE {
        None
    } else {
        Some(Header { addr: start as usize, size: size as usize, is_allocated: false })
    }
}

/// The line describing a conventional-memory region: `CONVENTIONAL:
/// start=0x<start>, pages=<pages>, size=0x<bytes>`, the start and the size
/// in bytes in hexadecimal and the page count in decimal.
pub open spec fn region_summary(d: EfiMemoryDescriptor) -> Seq<char> {
    "CONVENTIONAL: start=0x"@ + hex_min(d.physical_start as nat, 0) + ", pages="@ + dec_digits(
        d.number_of_pages as nat,
    ) + ", size=0x"@ + hex_min((d.number_of_pages * UEFI_PAGE_SIZE) as nat, 0)
}

/// The line describing the region of `d` (see `region_summary`).
pub fn region_summary_text(d: &EfiMemoryDescriptor) -> (r: Vec<char>)
    requires
        descriptor_fits(*d),
    ensures
        r@ == region_summary(*d),
{
    let mut out: Vec<char> = Vec::new();
    push_str(&mut out, "CONVENTIONAL: start=0x");
    push_hex(&mut out, d.physical_start(), 0);
    push_str(&mut out, ", pages=");
    push_dec(&mut out, d.number_of_pages() as usize);
    push_str(&mut out, ", size=0x");
    push_hex(&mut out, d.number_of_pages() * UEFI_PAGE_SIZE as u64, 0);
    out
}

/// The free block of a descriptor whose region fits in the address space
/// covers exactly that region, minus the first page when the region starts
/// at address 0; it exists exactly when more than one page is left,
/// wherever the region lies.
pub proof fn lemma_free_region_covers_region(d: EfiMemoryDescriptor)
    requires
        descriptor_fits(d),
    ensures
        free_region(d) is Some <==> (if d.physical_start == 0 {
            d.number_of_pages * 4096 > 2 * 4096
        } else {
            d.number_of_pages * 4096 > 4096
        }),
        free_region(d) matches Some(h) ==> {
            &&& !h.is_allocated
            &&& h.addr + h.size == d.physical_start + d.number_of_pages * 4096
            &&& forall|a: int| in_block(h, a) <==> (d.physical_start <= a < d.physical_start
                + d.number_of_pages * 4096 && !(d.physical_start == 0 && a < 4096))
        },
{
}

/// The block list after adding the free region of `d` in front, when `d`
/// describes conventional memory.
pub open spec fn add_descriptor(blocks: Seq<Header>, d: EfiMemoryDescriptor) -> Seq<Header> {
    if d.memory_type != EfiMemoryType::CONVENTIONAL_MEMORY {
        blocks
    } else {
        match free_region(d) {
            Some(h) => seq![h] + blocks,
            None => blocks,
        }
    }
}

/// The block list after adding, in map order, the free regions of `descs`.
pub open spec fn init_blocks(blocks: Seq<Header>, descs: Seq<EfiMemoryDescriptor>) -> Seq<Header>
    decreases descs.len(),
{
    if descs.len() == 0 {
        blocks
    } else {
        add_descriptor(init_blocks(blocks, descs.drop_last()), descs.last())
    }
}

/// Every conventional-memory descriptor of the map that leaves more than
/// one page gives its free block to the list made from the map, whatever
/// address its region starts at.
pub proof fn lemma_init_contains_region(blocks: Seq<Header>, descs: Seq<EfiMemoryDescriptor>, k: int)
    requires
        0 <= k < descs.len(),
        descs[k].memory_type == EfiMemoryType::CONVENTIONAL_MEMORY,
        free_region(descs[k]) is Some,
    ensures
        init_blocks(blocks, descs).contains(free_region(descs[k])->Some_0),
    decreases descs.len(),
{
    let n = descs.len() - 1;
    let rest = descs.drop_last();
    let before = init_blocks(blocks, rest);
    let after = init_blocks(blocks, descs);
    assert(descs.last() == descs[n]);
    if k == n {
        assert(after[0] == free_region(descs[k])->Some_0);
    } else {
        assert(rest[k] == descs[k]);
        lemma_init_contains_region(blocks, rest, k);
        let j = choose|j: int| 0 <= j < before.len() && before[j] == free_region(descs[k])->Some_0;
        if after != before {
            assert(after[j + 1] == before[j]);
        }
    }
}

/// Every conventional-memory descriptor of the map fits in the address space.
pub open spec fn map_fits(descs: Seq<EfiMemoryDescriptor>) -> bool {
    forall|k: int| 0 <= k < descs.len() && (#[trigger] descs[k]).memory_type
        == EfiMemoryType::CONVENTIONAL_MEMORY ==> descriptor_fits(descs[k])
}

/// Block `j` is the first whose header starts at `addr`.
pub open spec fn is_header_index(blocks: Seq<Header>, addr: int, j: int) -> bool {
    &&& 0 <= j < blocks.len()
    &&& blocks[j].addr == addr
    &&& forall|k: int| 0 <= k < j ==> (#[trigger] blocks[k]).addr != addr
}

/// The index of the first block whose header starts at `addr`.
pub open spec fn header_index(blocks: Seq<Header>, addr: int) -> int {
    choose|j: int| is_header_index(blocks, addr, j)
}

/// Some block's header starts at `addr`.
pub open spec fn has_header_at(blocks: Seq<Header>, addr: int) -> bool {
    exists|j: int| 0 <= j < blocks.len() && (#[trigger] blocks[j]).addr == addr
}

/// The first header index is unique.
pub proof fn lemma_header_index_unique(blocks: Seq<Header>, addr: int, i: int, j: int)
    requires
        is_header_index(blocks, addr, i),
        is_header_index(blocks, addr, j),
    ensures
        i == j,
{
    if i < j {
        assert(blocks[i].addr != addr);
    }
    if j < i {
        assert(blocks[j].addr != addr);
    }
}

/// The block list after the block whose data starts at `ptr` is released.
pub open spec fn after_free(blocks: Seq<Header>, ptr: int) -> Seq<Header> {
    let j = header_index(blocks, ptr - HEADER_SIZE);
    blocks.update(j, Header { is_allocated: false, ..blocks[j] })
}

/// The address ranges of two blocks do not overlap.
pub open spec fn ranges_disjoint(a: Header, b: Header) -> bool {
    a.addr + a.size <= b.addr || b.addr + b.size <= a.addr
}

/// No two blocks of the list overlap.
pub open spec fn blocks_disjoint(blocks: Seq<Header>) -> bool {
    forall|i: int, j: int|
        0 <= i < blocks.len() && 0 <= j < blocks.len() && i != j ==> ranges_disjoint(
            #[trigger] blocks[i],
            #[trigger] blocks[j],
        )
}

/// Address `a` lies in block `h`.
pub open spec fn in_block(h: Header, a: int) -> bool {
    h.addr <= a < h.addr + h.size
}

/// Address `a` lies in some block of the list.
pub open spec fn covers(blocks: Seq<Header>, a: int) -> bool {
    exists|j: int| 0 <= j < blocks.len() && in_block(#[trigger] blocks[j], a)
}

/// Block `a` lies within block `b`.
pub open spec fn inside(a: Header, b: Header) -> bool {
    b.addr <= a.addr && a.addr + a.size <= b.addr + b.size
}

proof fn lemma_split_shape(blocks: Seq<Header>, i: int, size: int, align: int)
    requires
        blocks_wf(blocks),
        0 <= i < blocks.len(),
        can_serve(blocks[i], size, align),
        request_ok(size, align),
    ensures
        ({
            let split = split_block(blocks[i], size, align);
            let after = after_split(blocks, i, size, align);
            let n = split.len() as int;
            &&& 2 <= n <= 3
            &&& after.len() == blocks.len() + n - 1
            &&& forall|k: int| 0 <= k < i ==> after[k] == blocks[k]
            &&& forall|k: int| i <= k < i + n ==> after[k] == split[k - i]
            &&& forall|k: int| i + n <= k < after.len() ==> after[k] == blocks[k - n + 1]
            &&& forall|k: int| 0 <= k < n ==> inside(#[trigger] split[k], blocks[i]) && split[k].size > 0
            &&& forall|k1: int, k2: int| 0 <= k1 < n && 0 <= k2 < n && k1 != k2
                ==> ranges_disjoint(#[trigger] split[k1], #[trigger] split[k2])
            &&& forall|a: int| in_block(blocks[i], a) <==> exists|k: int| 0 <= k < n && in_block(#[trigger] split[k], a)
            &&& split[1].is_allocated
            &&& split[1].addr + HEADER_SIZE == placement(blocks[i], size, align)
            &&& split[1].size == request_size(size) + HEADER_SIZE
            &&& split[0].addr == blocks[i].addr
        }),
        blocks_wf(after_split(blocks, i, size, align)),
{
    lemma_placement_facts(blocks[i], size, align);
    lemma_request_bounds(size, align);
    let split = split_block(blocks[i], size, align);
    let n = split.len() as int;
    let after = after_split(blocks, i, size, align);
    assert forall|k: int| i + n <= k < after.len() implies after[k] == blocks[k - n + 1] by {
        assert(after[k] == blocks.skip(i + 1)[k - i - n]);
    }
    assert forall|a: int| in_block(blocks[i], a) implies exists|k: int| 0 <= k < n && in_block(#[trigger] split[k], a) by {
        if in_block(split[0], a) {
        } else if in_block(split[1], a) {
        } else {
            assert(in_block(split[2], a));
        }
    }
    assert forall|k: int| 0 <= k < after.len() implies block_fits(#[trigger] after[k]) && after[k].size > 0 by {
        if k < i {
            assert(after[k] == blocks[k]);
        } else if k < i + n {
            assert(after[k] == split[k - i]);
            assert(inside(split[k - i], blocks[i]));
        } else {
            assert(after[k] == blocks[k - n + 1]);
        }
    }
}

/// Serving a request keeps the blocks pairwise disjoint and covers exactly
/// the same addresses as before.
pub proof fn lemma_alloc_keeps_blocks_disjoint(blocks: Seq<Header>, i: int, size: int, align: int)
    requires
        blocks_wf(blocks),
        blocks_disjoint(blocks),
        0 <= i < blocks.len(),
        can_serve(blocks[i], size, align),
        request_ok(size, align),
    ensures
        blocks_disjoint(after_split(blocks, i, size, align)),
        forall|a: int| covers(after_split(blocks, i, size, align), a) <==> covers(blocks, a),
{
    lemma_split_shape(blocks, i, size, align);
    let split = split_block(blocks[i], size, align);
    let after = after_split(blocks, i, size, align);
    let n = split.len() as int;
    assert forall|k1: int, k2: int|
        0 <= k1 < after.len() && 0 <= k2 < after.len() && k1 != k2 implies ranges_disjoint(
        #[trigger] after[k1],
        #[trigger] after[k2],
    ) by {
        let in1 = i <= k1 < i + n;
        let in2 = i <= k2 < i + n;
        let o1 = if k1 < i { k1 } else { k1 - n + 1 };
        let o2 = if k2 < i { k2 } else { k2 - n + 1 };
        if in1 && in2 {
            assert(ranges_disjoint(split[k1 - i], split[k2 - i]));
        } else if in1 {
            assert(inside(split[k1 - i], blocks[i]));
            assert(ranges_disjoint(blocks[i], blocks[o2]));
        } else if in2 {
            assert(inside(split[k2 - i], blocks[i]));
            assert(ranges_disjoint(blocks[o1], blocks[i]));
        } else {
            assert(ranges_disjoint(blocks[o1], blocks[o2]));
        }
    }
    assert forall|a: int| covers(after, a) <==> covers(blocks, a) by {
        if covers(after, a) {
            let k = choose|k: int| 0 <= k < after.len() && in_block(#[trigger] after[k], a);
            if i <= k < i + n {
                assert(inside(split[k - i], blocks[i]));
                assert(in_block(blocks[i], a));
            } else if k < i {
                assert(in_block(blocks[k], a));
            } else {
                assert(in_block(blocks[k - n + 1], a));
            }
        }
        if covers(blocks, a) {
            let j = choose|j: int| 0 <= j < blocks.len() && in_block(#[trigger] blocks[j], a);
            if j == i {
                let k = choose|k: int| 0 <= k < n && in_block(#[trigger] split[k], a);
                assert(in_block(after[i + k], a));
            } else if j < i {
                assert(in_block(after[j], a));
            } else {
                assert(in_block(after[j + n - 1], a));
            }
        }
    }
}

/// The memory handed out for a request lies inside the newly allocated
/// block, which lies inside the free block that served it; so it overlaps
/// no block that was allocated before.
pub proof fn lemma_alloc_region_unshared(blocks: Seq<Header>, i: int, size: int, align: int)
    requires
        blocks_wf(blocks),
        blocks_disjoint(blocks),
        0 <= i < blocks.len(),
        can_serve(blocks[i], size, align),
        request_ok(size, align),
    ensures
        ({
            let p = placement(blocks[i], size, align);
            let after = after_split(blocks, i, size, align);
            &&& after[i + 1].is_allocated
            &&& after[i + 1].addr + HEADER_SIZE == p
            &&& p + size <= after[i + 1].addr + after[i + 1].size
            &&& inside(after[i + 1], blocks[i])
            &&& forall|j: int| 0 <= j < blocks.len() && (#[trigger] blocks[j]).is_allocated
                ==> p + size <= blocks[j].addr || blocks[j].addr + blocks[j].size <= p
        }),
{
    lemma_split_shape(blocks, i, size, align);
    lemma_request_bounds(size, align);
    let p = placement(blocks[i], size, align);
    let after = after_split(blocks, i, size, align);
    assert(after[i + 1] == split_block(blocks[i], size, align)[1]);
    lemma_size_below_request(size, align);
    assert forall|j: int| 0 <= j < blocks.len() && (#[trigger] blocks[j]).is_allocated
        implies p + size <= blocks[j].addr || blocks[j].addr + blocks[j].size <= p by {
        assert(j != i);
        assert(ranges_disjoint(blocks[i], blocks[j]));
    }
}

/// A request never exceeds its rounded size.
proof fn lemma_size_below_request(size: int, align: int)
    requires
        request_ok(size, align),
        1 <= size <= max_roundable(),
    ensures
        size <= request_size(size),
{
    lemma_request_bounds(size, align);
    lemma2_to64();
    lemma2_to64_rest();
    lemma_nearest_exists(size, (usize::BITS - 1) as nat);
}

/// The address handed out is a multiple of the requested alignment.
pub proof fn lemma_placement_aligned(h: Header, size: int, align: int)
    requires
        block_fits(h),
        can_serve(h, size, align),
        request_ok(size, align),
    ensures
        placement(h, size, align) % align == 0,
{
    lemma_placement_facts(h, size, align);
    lemma_request_bounds(size, align);
    let ra = request_align(align);
    let a = choose|k: nat| pow2(k) == ra;
    let b = choose|k: nat| pow2(k) == align;
    if a < b {
        lemma_pow2_strictly_increases(a, b);
    }
    vstd::arithmetic::power2::lemma_pow2_adds(b, (a - b) as nat);
    vstd::arithmetic::power2::lemma_pow2_pos(b);
    vstd::arithmetic::power2::lemma_pow2_pos((a - b) as nat);
    let q = placement(h, size, align) / ra;
    vstd::arithmetic::div_mod::lemma_fundamental_div_mod(placement(h, size, align), ra);
    assert(placement(h, size, align) == (q * pow2((a - b) as nat)) * align) by (nonlinear_arith)
        requires
            placement(h, size, align) == ra * q,
            ra == align * pow2((a - b) as nat);
    vstd::arithmetic::div_mod::lemma_mod_multiples_basic(q * pow2((a - b) as nat), align);
}

/// Releasing the memory just handed out frees exactly the block created for
/// it: the rest of the list stays as the allocation left it.
pub proof fn lemma_free_after_alloc(blocks: Seq<Header>, i: int, size: int, align: int)
    requires
        blocks_wf(blocks),
        blocks_disjoint(blocks),
        0 <= i < blocks.len(),
        can_serve(blocks[i], size, align),
        request_ok(size, align),
    ensures
        ({
            let p = placement(blocks[i], size, align);
            let after = after_split(blocks, i, size, align);
            &&& p >= HEADER_SIZE
            &&& has_header_at(after, p - HEADER_SIZE)
            &&& header_index(after, p - HEADER_SIZE) == i + 1
            &&& after[i + 1].addr == p - HEADER_SIZE
            &&& after[i + 1].is_allocated
            &&& after[i + 1].size == request_size(size) + HEADER_SIZE
            &&& after_free(after, p) == after.update(i + 1, Header { is_allocated: false, ..after[i + 1] })
        }),
{
    lemma_split_shape(blocks, i, size, align);
    lemma_placement_facts(blocks[i], size, align);
    let p = placement(blocks[i], size, align);
    let after = after_split(blocks, i, size, align);
    assert forall|k: int| 0 <= k < i + 1 implies (#[trigger] after[k]).addr != p - HEADER_SIZE by {
        if k < i {
            assert(ranges_disjoint(blocks[k], blocks[i]));
        }
    }
    assert(is_header_index(after, p - HEADER_SIZE, i + 1));
    lemma_header_index_unique(after, p - HEADER_SIZE, i + 1, header_index(after, p - HEADER_SIZE));
}

/// Adding a descriptor's region that overlaps no existing block keeps the
/// blocks pairwise disjoint.
pub proof fn lemma_add_descriptor_keeps_disjoint(blocks: Seq<Header>, d: EfiMemoryDescriptor)
    requires
        blocks_disjoint(blocks),
        free_region(d) matches Some(h) ==> forall|j: int| 0 <= j < blocks.len() ==> ranges_disjoint(h, #[trigger] blocks[j]),
    ensures
        blocks_disjoint(add_descriptor(blocks, d)),
{
    let after = add_descriptor(blocks, d);
    if after != blocks {
        let h = free_region(d)->Some_0;
        assert forall|k1: int, k2: int|
            0 <= k1 < after.len() && 0 <= k2 < after.len() && k1 != k2 implies ranges_disjoint(
            #[trigger] after[k1],
            #[trigger] after[k2],
        ) by {
            if k1 == 0 {
                assert(ranges_disjoint(h, blocks[k2 - 1]));
            } else if k2 == 0 {
                assert(ranges_disjoint(h, blocks[k1 - 1]));
            } else {
                assert(ranges_disjoint(blocks[k1 - 1], blocks[k2 - 1]));
            }
        }
    }
}

/// Every block starts at a multiple of the header size and spans a
/// multiple of it.
pub open spec fn blocks_aligned(blocks: Seq<Header>) -> bool {
    forall|i: int| 0 <= i < blocks.len() ==> (#[trigger] blocks[i]).addr % HEADER_SIZE == 0
        && blocks[i].size % HEADER_SIZE == 0
}

proof fn lemma_mult32_add(a: int, b: int)
    requires
        a % 32 == 0,
        b % 32 == 0,
    ensures
        (a + b) % 32 == 0,
        (a - b) % 32 == 0,
{
    vstd::arithmetic::div_mod::lemma_add_mod_noop(a, b, 32);
    vstd::arithmetic::div_mod::lemma_sub_mod_noop(a, b, 32);
}

/// A power of two of at least the header size is a multiple of it.
proof fn lemma_pow2_mult32(p: int)
    requires
        is_power_of_two(p),
        p >= 32,
    ensures
        p % 32 == 0,
{
    let k = choose|k: nat| pow2(k) == p;
    lemma2_to64();
    if k < 5 {
        lemma_pow2_strictly_increases(k, 5);
    }
    vstd::arithmetic::power2::lemma_pow2_adds(5, (k - 5) as nat);
    vstd::arithmetic::div_mod::lemma_mod_multiples_basic(pow2((k - 5) as nat) as int, 32);
}

/// The rounded size, the alignment used and the address handed out for a
/// served request are multiples of the header size.
proof fn lemma_request_mult32(h: Header, size: int, align: int)
    requires
        block_fits(h),
        can_serve(h, size, align),
        request_ok(size, align),
    ensures
        request_size(size) % 32 == 0,
        request_align(align) % 32 == 0,
        placement(h, size, align) % 32 == 0,
{
    lemma_request_bounds(size, align);
    lemma_placement_facts(h, size, align);
    lemma2_to64();
    lemma2_to64_rest();
    lemma_nearest_exists(size, (usize::BITS - 1) as nat);
    if nearest_pow2_above(size) >= 32 {
        lemma_pow2_mult32(nearest_pow2_above(size));
    }
    let ra = request_align(align);
    lemma_pow2_mult32(ra);
    let t = ra / 32;
    vstd::arithmetic::div_mod::lemma_fundamental_div_mod(ra, 32);
    vstd::arithmetic::div_mod::lemma_mod_mod(placement(h, size, align), 32, t);
}

/// Serving a request keeps every block at a multiple of the header size,
/// both in where it starts and in how far it extends.
pub proof fn lemma_alloc_keeps_blocks_aligned(blocks: Seq<Header>, i: int, size: int, align: int)
    requires
        blocks_wf(blocks),
        blocks_aligned(blocks),
        0 <= i < blocks.len(),
        can_serve(blocks[i], size, align),
        request_ok(size, align),
    ensures
        blocks_aligned(after_split(blocks, i, size, align)),
{
    lemma_split_shape(blocks, i, size, align);
    lemma_request_mult32(blocks[i], size, align);
    let h = blocks[i];
    let p = placement(h, size, align);
    let rs = request_size(size);
    let split = split_block(h, size, align);
    let after = after_split(blocks, i, size, align);
    lemma_mult32_add(p, 32);
    lemma_mult32_add(p - 32, h.addr as int);
    lemma_mult32_add(rs, 32);
    lemma_mult32_add(p, rs);
    lemma_mult32_add(h.addr as int, h.size as int);
    lemma_mult32_add(h.addr + h.size, p + rs);
    assert forall|k: int| 0 <= k < split.len() implies (#[trigger] split[k]).addr % 32 == 0 && split[k].size % 32 == 0 by {}
    assert forall|k: int| 0 <= k < after.len() implies (#[trigger] after[k]).addr % HEADER_SIZE == 0
        && after[k].size % HEADER_SIZE == 0 by {
        if i <= k < i + split.len() {
            assert(after[k] == split[k - i]);
        }
    }
}

/// Some block starting at `addr` gives a first such block.
proof fn lemma_header_index_exists(blocks: Seq<Header>, addr: int)
    requires
        has_header_at(blocks, addr),
    ensures
        is_header_index(blocks, addr, header_index(blocks, addr)),
{
    let w = choose|w: int| 0 <= w < blocks.len() && (#[trigger] blocks[w]).addr == addr;
    lemma_header_index_exists_below(blocks, addr, w);
}

proof fn lemma_header_index_exists_below(blocks: Seq<Header>, addr: int, w: int)
    requires
        0 <= w < blocks.len(),
        blocks[w].addr == addr,
    ensures
        is_header_index(blocks, addr, header_index(blocks, addr)),
    decreases w,
{
    if exists|k: int| 0 <= k < w && (#[trigger] blocks[k]).addr == addr {
        let k = choose|k: int| 0 <= k < w && (#[trigger] blocks[k]).addr == addr;
        lemma_header_index_exists_below(blocks, addr, k);
    } else {
        assert(is_header_index(blocks, addr, w));
    }
}

/// Releasing memory keeps every block at a multiple of the header size.
pub proof fn lemma_free_keeps_blocks_aligned(blocks: Seq<Header>, ptr: int)
    requires
        blocks_aligned(blocks),
        has_header_at(blocks, ptr - HEADER_SIZE),
    ensures
        blocks_aligned(after_free(blocks, ptr)),
{
    lemma_header_index_exists(blocks, ptr - HEADER_SIZE);
    let j = header_index(blocks, ptr - HEADER_SIZE);
    let after = after_free(blocks, ptr);
    assert forall|k: int| 0 <= k < after.len() implies (#[trigger] after[k]).addr % HEADER_SIZE == 0
        && after[k].size % HEADER_SIZE == 0 by {
        assert(blocks[k].addr % HEADER_SIZE == 0);
    }
}

/// Adding the region of a descriptor that starts at a multiple of the
/// header size keeps every block at a multiple of it.
pub proof fn lemma_add_descriptor_keeps_aligned(blocks: Seq<Header>, d: EfiMemoryDescriptor)
    requires
        blocks_aligned(blocks),
        d.memory_type == EfiMemoryType::CONVENTIONAL_MEMORY ==> descriptor_fits(d),
        d.physical_start % 32 == 0,
    ensures
        blocks_aligned(add_descriptor(blocks, d)),
{
    let after = add_descriptor(blocks, d);
    if after != blocks {
        let h = free_region(d)->Some_0;
        let size0 = d.number_of_pages * UEFI_PAGE_SIZE;
        vstd::arithmetic::div_mod::lemma_mod_multiples_basic(d.number_of_pages * 128, 32);
        assert(size0 == (d.number_of_pages * 128) * 32) by (nonlinear_arith)
            requires
                size0 == d.number_of_pages * UEFI_PAGE_SIZE;
        lemma_mult32_add(size0, 4096);
        assert(h.addr % 32 == 0 && h.size % 32 == 0);
        assert forall|k: int| 0 <= k < after.len() implies (#[trigger] after[k]).addr % HEADER_SIZE == 0
            && after[k].size % HEADER_SIZE == 0 by {
            if k > 0 {
                assert(after[k] == blocks[k - 1]);
            }
        }
    }
}

/// Adding the regions of a memory map whose conventional-memory regions
/// start at multiples of the header size keeps every block at a multiple
/// of it.
pub proof fn lemma_init_keeps_blocks_aligned(blocks: Seq<Header>, descs: Seq<EfiMemoryDescriptor>)
    requires
        blocks_aligned(blocks),
        map_fits(descs),
        forall|k: int| 0 <= k < descs.len() ==> (#[trigger] descs[k]).physical_start % 32 == 0,
    ensures
        blocks_aligned(init_blocks(blocks, descs)),
    decreases descs.len(),
{
    if descs.len() > 0 {
        let rest = descs.drop_last();
        assert forall|k: int| 0 <= k < rest.len() && (#[trigger] rest[k]).memory_type
            == EfiMemoryType::CONVENTIONAL_MEMORY implies descriptor_fits(rest[k]) by {
            assert(rest[k] == descs[k]);
        }
        assert forall|k: int| 0 <= k < rest.len() implies (#[trigger] rest[k]).physical_start % 32 == 0 by {
            assert(rest[k] == descs[k]);
        }
        lemma_init_keeps_blocks_aligned(blocks, rest);
        assert(descs.last() == descs[descs.len() - 1]);
        lemma_add_descriptor_keeps_aligned(init_blocks(blocks, rest), descs.last());
    }
}

/// Two requests served one after the other hand out memory that does not
/// overlap: the second lands in a block of the list the first left behind.
pub proof fn lemma_successive_allocations_disjoint(
    blocks: Seq<Header>,
    i: int,
    size1: int,
    align1: int,
    j: int,
    size2: int,
    align2: int,
)
    requires
        blocks_wf(blocks),
        blocks_disjoint(blocks),
        0 <= i < blocks.len(),
        can_serve(blocks[i], size1, align1),
        request_ok(size1, align1),
        0 <= j < after_split(blocks, i, size1, align1).len(),
        can_serve(after_split(blocks, i, size1, align1)[j], size2, align2),
        request_ok(size2, align2),
    ensures
        ({
            let p1 = placement(blocks[i], size1, align1);
            let p2 = placement(after_split(blocks, i, size1, align1)[j], size2, align2);
            p1 + size1 <= p2 || p2 + size2 <= p1
        }),
{
    let after = after_split(blocks, i, size1, align1);
    lemma_split_shape(blocks, i, size1, align1);
    lemma_alloc_region_unshared(blocks, i, size1, align1);
    lemma_alloc_keeps_blocks_disjoint(blocks, i, size1, align1);
    lemma_alloc_region_unshared(after, j, size2, align2);
    assert(after[i + 1].is_allocated);
}

/// The address just past the region `d` describes.
pub open spec fn region_end(d: EfiMemoryDescriptor) -> int {
    d.physical_start + d.number_of_pages * UEFI_PAGE_SIZE
}

/// Block `h` lies wholly before `a` or wholly at or after `e`.
pub open spec fn apart(h: Header, a: int, e: int) -> bool {
    h.addr + h.size <= a || e <= h.addr
}

/// The conventional-memory regions of the map do not overlap.
pub open spec fn map_disjoint(descs: Seq<EfiMemoryDescriptor>) -> bool {
    forall|k1: int, k2: int|
        0 <= k1 < descs.len() && 0 <= k2 < descs.len() && k1 != k2 && (#[trigger] descs[k1]).memory_type
            == EfiMemoryType::CONVENTIONAL_MEMORY && (#[trigger] descs[k2]).memory_type
            == EfiMemoryType::CONVENTIONAL_MEMORY ==> region_end(descs[k1]) <= descs[k2].physical_start
            || region_end(descs[k2]) <= descs[k1].physical_start
}

/// The free block of a descriptor lies in the descriptor's region.
proof fn lemma_free_region_inside(d: EfiMemoryDescriptor)
    requires
        descriptor_fits(d),
        free_region(d) is Some,
    ensures
        ({
            let h = free_region(d)->Some_0;
            &&& d.physical_start <= h.addr
            &&& h.addr + h.size <= region_end(d)
            &&& block_fits(h)
            &&& h.size > 0
        }),
{
}

/// Every block made from the map lies apart from `[a, e)` when the
/// starting blocks and every conventional-memory region do.
proof fn lemma_init_apart(blocks: Seq<Header>, descs: Seq<EfiMemoryDescriptor>, a: int, e: int)
    requires
        map_fits(descs),
        forall|i: int| 0 <= i < blocks.len() ==> apart(#[trigger] blocks[i], a, e),
        forall|k: int|
            0 <= k < descs.len() && (#[trigger] descs[k]).memory_type == EfiMemoryType::CONVENTIONAL_MEMORY
                ==> region_end(descs[k]) <= a || e <= descs[k].physical_start,
    ensures
        forall|j: int| 0 <= j < init_blocks(blocks, descs).len() ==> apart(#[trigger] init_blocks(blocks, descs)[j], a, e),
    decreases descs.len(),
{
    if descs.len() > 0 {
        let rest = descs.drop_last();
        let last = descs.last();
        assert(last == descs[descs.len() - 1]);
        assert forall|k: int| 0 <= k < rest.len() && (#[trigger] rest[k]).memory_type
            == EfiMemoryType::CONVENTIONAL_MEMORY implies descriptor_fits(rest[k]) by {
            assert(rest[k] == descs[k]);
        }
        assert forall|k: int| 0 <= k < rest.len() && (#[trigger] rest[k]).memory_type
            == EfiMemoryType::CONVENTIONAL_MEMORY implies region_end(rest[k]) <= a || e <= rest[k].physical_start by {
            assert(rest[k] == descs[k]);
        }
        lemma_init_apart(blocks, rest, a, e);
        let before = init_blocks(blocks, rest);
        let after = init_blocks(blocks, descs);
        if after != before {
            lemma_free_region_inside(last);
            assert forall|j: int| 0 <= j < after.len() implies apart(#[trigger] after[j], a, e) by {
                if j > 0 {
                    assert(after[j] == before[j - 1]);
                }
            }
        }
    }
}

/// A map of non-overlapping conventional-memory regions, added to blocks
/// that overlap none of them nor each other, gives blocks that do not
/// overlap.
pub proof fn lemma_init_keeps_blocks_disjoint(blocks: Seq<Header>, descs: Seq<EfiMemoryDescriptor>)
    requires
        blocks_disjoint(blocks),
        map_fits(descs),
        map_disjoint(descs),
        forall|i: int, k: int|
            0 <= i < blocks.len() && 0 <= k < descs.len() && (#[trigger] descs[k]).memory_type
                == EfiMemoryType::CONVENTIONAL_MEMORY ==> apart(#[trigger] blocks[i], descs[k].physical_start as int, region_end(descs[k])),
    ensures
        blocks_disjoint(init_blocks(blocks, descs)),
    decreases descs.len(),
{
    if descs.len() > 0 {
        let rest = descs.drop_last();
        let n = descs.len() - 1;
        let last = descs.last();
        assert(last == descs[n]);
        assert forall|k: int| 0 <= k < rest.len() implies #[trigger] rest[k] == descs[k] by {}
        assert(map_fits(rest));
        assert(map_disjoint(rest)) by {
            assert forall|k1: int, k2: int|
                0 <= k1 < rest.len() && 0 <= k2 < rest.len() && k1 != k2 && (#[trigger] rest[k1]).memory_type
                    == EfiMemoryType::CONVENTIONAL_MEMORY && (#[trigger] rest[k2]).memory_type
                    == EfiMemoryType::CONVENTIONAL_MEMORY implies region_end(rest[k1]) <= rest[k2].physical_start
                    || region_end(rest[k2]) <= rest[k1].physical_start by {
                assert(rest[k1] == descs[k1] && rest[k2] == descs[k2]);
            }
        }
        assert forall|i: int, k: int|
            0 <= i < blocks.len() && 0 <= k < rest.len() && (#[trigger] rest[k]).memory_type
                == EfiMemoryType::CONVENTIONAL_MEMORY implies apart(#[trigger] blocks[i], rest[k].physical_start as int, region_end(rest[k])) by {
            assert(rest[k] == descs[k]);
        }
        lemma_init_keeps_blocks_disjoint(blocks, rest);
        let before = init_blocks(blocks, rest);
        if last.memory_type == EfiMemoryType::CONVENTIONAL_MEMORY {
            let a = last.physical_start as int;
            let e = region_end(last);
            assert forall|i: int| 0 <= i < blocks.len() implies apart(#[trigger] blocks[i], a, e) by {
                assert(apart(blocks[i], descs[n].physical_start as int, region_end(descs[n])));
            }
            assert forall|k: int|
                0 <= k < rest.len() && (#[trigger] rest[k]).memory_type == EfiMemoryType::CONVENTIONAL_MEMORY
                    implies region_end(rest[k]) <= a || e <= rest[k].physical_start by {
                assert(rest[k] == descs[k]);
                assert(region_end(descs[k]) <= descs[n].physical_start || region_end(descs[n]) <= descs[k].physical_start);
            }
            lemma_init_apart(blocks, rest, a, e);
            if free_region(last) is Some {
                lemma_free_region_inside(last);
                let h = free_region(last)->Some_0;
                assert forall|j: int| 0 <= j < before.len() implies ranges_disjoint(h, #[trigger] before[j]) by {
                    assert(apart(before[j], a, e));
                }
            }
            lemma_add_descriptor_keeps_disjoint(before, last);
        }
    }
}

/// Blocks made from a map that fits in the address space are well formed.
pub proof fn lemma_init_keeps_blocks_wf(blocks: Seq<Header>, descs: Seq<EfiMemoryDescriptor>)
    requires
        blocks_wf(blocks),
        map_fits(descs),
    ensures
        blocks_wf(init_blocks(blocks, descs)),
    decreases descs.len(),
{
    if descs.len() > 0 {
        let rest = descs.drop_last();
        let last = descs.last();
        assert(last == descs[descs.len() - 1]);
        assert forall|k: int| 0 <= k < rest.len() && (#[trigger] rest[k]).memory_type
            == EfiMemoryType::CONVENTIONAL_MEMORY implies descriptor_fits(rest[k]) by {
            assert(rest[k] == descs[k]);
        }
        lemma_init_keeps_blocks_wf(blocks, rest);
        let before = init_blocks(blocks, rest);
        let after = init_blocks(blocks, descs);
        if after != before {
            lemma_free_region_inside(last);
            assert forall|j: int| 0 <= j < after.len() implies block_fits(#[trigger] after[j]) && after[j].size > 0 by {
                if j > 0 {
                    assert(after[j] == before[j - 1]);
                }
            }
        }
    }
}

/// One call on the allocator: a request of a size and an alignment, or
/// the release of the memory at an address.
pub enum Step {
    Alloc(usize, usize),
    Free(usize),
}

/// The block list after one call: a request is served by the first
/// fitting block (nothing changes when none fits or the request is not
/// acceptable); a release frees the block whose header sits right before
/// the address (nothing changes when there is none).
pub open spec fn apply_step(blocks: Seq<Header>, s: Step) -> Seq<Header> {
    match s {
        Step::Alloc(size, align) => {
            if request_ok(size as int, align as int) {
                match first_fit(blocks, size as int, align as int) {
                    Some(i) => after_split(blocks, i, size as int, align as int),
                    None => blocks,
                }
            } else {
                blocks
            }
        },
        Step::Free(ptr) => {
            if ptr >= HEADER_SIZE && has_header_at(blocks, ptr - HEADER_SIZE) {
                after_free(blocks, ptr as int)
            } else {
                blocks
            }
        },
    }
}

/// The block list after the calls `steps`, in order.
pub open spec fn run_steps(blocks: Seq<Header>, steps: Seq<Step>) -> Seq<Header>
    decreases steps.len(),
{
    if steps.len() == 0 {
        blocks
    } else {
        apply_step(run_steps(blocks, steps.drop_last()), steps.last())
    }
}

/// No call of `steps` releases the memory at `ptr`.
pub open spec fn never_frees(steps: Seq<Step>, ptr: int) -> bool {
    forall|k: int| 0 <= k < steps.len() ==> !((#[trigger] steps[k]) matches Step::Free(p) && p == ptr)
}

/// Every call keeps the blocks well formed and pairwise disjoint.
pub proof fn lemma_step_keeps_blocks(blocks: Seq<Header>, s: Step)
    requires
        blocks_wf(blocks),
        blocks_disjoint(blocks),
    ensures
        blocks_wf(apply_step(blocks, s)),
        blocks_disjoint(apply_step(blocks, s)),
{
    match s {
        Step::Alloc(size, align) => {
            if request_ok(size as int, align as int) && first_fit(blocks, size as int, align as int) is Some {
                let i = first_fit(blocks, size as int, align as int)->Some_0;
                assert(is_first_fit(blocks, size as int, align as int, i));
                lemma_split_shape(blocks, i, size as int, align as int);
                lemma_alloc_keeps_blocks_disjoint(blocks, i, size as int, align as int);
            }
        },
        Step::Free(ptr) => {
            if ptr >= HEADER_SIZE && has_header_at(blocks, ptr - HEADER_SIZE) {
                lemma_header_index_exists(blocks, ptr - HEADER_SIZE);
                let after = after_free(blocks, ptr as int);
                assert forall|k1: int, k2: int|
                    0 <= k1 < after.len() && 0 <= k2 < after.len() && k1 != k2 implies ranges_disjoint(
                    #[trigger] after[k1],
                    #[trigger] after[k2],
                ) by {
                    assert(ranges_disjoint(blocks[k1], blocks[k2]));
                }
                assert forall|k: int| 0 <= k < after.len() implies block_fits(#[trigger] after[k]) && after[k].size > 0 by {
                    assert(block_fits(blocks[k]));
                }
            }
        },
    }
}

/// Any sequence of calls keeps the blocks well formed and pairwise disjoint.
pub proof fn lemma_run_keeps_blocks(blocks: Seq<Header>, steps: Seq<Step>)
    requires
        blocks_wf(blocks),
        blocks_disjoint(blocks),
    ensures
        blocks_wf(run_steps(blocks, steps)),
        blocks_disjoint(run_steps(blocks, steps)),
    decreases steps.len(),
{
    if steps.len() > 0 {
        lemma_run_keeps_blocks(blocks, steps.drop_last());
        lemma_step_keeps_blocks(run_steps(blocks, steps.drop_last()), steps.last());
    }
}

/// An allocated block stays in the list, unchanged, through a call that
/// does not release its memory.
pub proof fn lemma_step_keeps_allocated(blocks: Seq<Header>, s: Step, h: Header)
    requires
        blocks_wf(blocks),
        blocks_disjoint(blocks),
        blocks.contains(h),
        h.is_allocated,
        !(s matches Step::Free(p) && p == h.addr + HEADER_SIZE),
    ensures
        apply_step(blocks, s).contains(h),
{
    let j = choose|j: int| 0 <= j < blocks.len() && blocks[j] == h;
    match s {
        Step::Alloc(size, align) => {
            if request_ok(size as int, align as int) && first_fit(blocks, size as int, align as int) is Some {
                let i = first_fit(blocks, size as int, align as int)->Some_0;
                assert(is_first_fit(blocks, size as int, align as int, i));
                lemma_split_shape(blocks, i, size as int, align as int);
                let after = after_split(blocks, i, size as int, align as int);
                let n = split_block(blocks[i], size as int, align as int).len() as int;
                if j < i {
                    assert(after[j] == h);
                } else {
                    assert(j != i);
                    assert(after[j + n - 1] == h);
                }
            }
        },
        Step::Free(ptr) => {
            if ptr >= HEADER_SIZE && has_header_at(blocks, ptr - HEADER_SIZE) {
                lemma_header_index_exists(blocks, ptr - HEADER_SIZE);
                let after = after_free(blocks, ptr as int);
                assert(after[j] == h);
            }
        },
    }
}

/// An allocated block stays in the list, unchanged, through any calls none
/// of which releases its memory.
pub proof fn lemma_run_keeps_allocated(blocks: Seq<Header>, steps: Seq<Step>, h: Header)
    requires
        blocks_wf(blocks),
        blocks_disjoint(blocks),
        blocks.contains(h),
        h.is_allocated,
        never_frees(steps, h.addr + HEADER_SIZE),
    ensures
        run_steps(blocks, steps).contains(h),
    decreases steps.len(),
{
    if steps.len() > 0 {
        let rest = steps.drop_last();
        assert forall|k: int| 0 <= k < rest.len() implies !((#[trigger] rest[k]) matches Step::Free(p) && p == h.addr
            + HEADER_SIZE) by {
            assert(rest[k] == steps[k]);
        }
        lemma_run_keeps_allocated(blocks, rest, h);
        lemma_run_keeps_blocks(blocks, rest);
        assert(steps.last() == steps[steps.len() - 1]);
        lemma_step_keeps_allocated(run_steps(blocks, rest), steps.last(), h);
    }
}

/// Memory handed out stays apart from all memory handed out later until it
/// is released: starting from the blocks of a map of non-overlapping
/// conventional-memory regions, after any calls `before`, a request of
/// `size1` bytes is served at `p1`; after any further calls `between` that
/// do not release `p1`, a request of `size2` bytes is served at `p2`; then
/// `[p1, p1 + size1)` and `[p2, p2 + size2)` do not overlap.
pub proof fn lemma_live_allocations_disjoint(
    descs: Seq<EfiMemoryDescriptor>,
    before: Seq<Step>,
    size1: usize,
    align1: usize,
    between: Seq<Step>,
    size2: usize,
    align2: usize,
)
    requires
        map_fits(descs),
        map_disjoint(descs),
        request_ok(size1 as int, align1 as int),
        request_ok(size2 as int, align2 as int),
        first_fit(run_steps(init_blocks(Seq::empty(), descs), before), size1 as int, align1 as int) is Some,
        ({
            let b1 = run_steps(init_blocks(Seq::empty(), descs), before);
            let i1 = first_fit(b1, size1 as int, align1 as int)->Some_0;
            let p1 = placement(b1[i1], size1 as int, align1 as int);
            let b2 = run_steps(apply_step(b1, Step::Alloc(size1, align1)), between);
            never_frees(between, p1) && first_fit(b2, size2 as int, align2 as int) is Some
        }),
    ensures
        ({
            let b1 = run_steps(init_blocks(Seq::empty(), descs), before);
            let i1 = first_fit(b1, size1 as int, align1 as int)->Some_0;
            let p1 = placement(b1[i1], size1 as int, align1 as int);
            let b2 = run_steps(apply_step(b1, Step::Alloc(size1, align1)), between);
            let i2 = first_fit(b2, size2 as int, align2 as int)->Some_0;
            let p2 = placement(b2[i2], size2 as int, align2 as int);
            p1 + size1 <= p2 || p2 + size2 <= p1
        }),
{
    let b0 = init_blocks(Seq::<Header>::empty(), descs);
    lemma_init_keeps_blocks_wf(Seq::empty(), descs);
    lemma_init_keeps_blocks_disjoint(Seq::empty(), descs);
    lemma_run_keeps_blocks(b0, before);
    let b1 = run_steps(b0, before);
    let i1 = first_fit(b1, size1 as int, align1 as int)->Some_0;
    assert(is_first_fit(b1, size1 as int, align1 as int, i1));
    let p1 = placement(b1[i1], size1 as int, align1 as int);
    let a1 = after_split(b1, i1, size1 as int, align1 as int);
    assert(apply_step(b1, Step::Alloc(size1, align1)) == a1);
    lemma_split_shape(b1, i1, size1 as int, align1 as int);
    lemma_alloc_region_unshared(b1, i1, size1 as int, align1 as int);
    lemma_alloc_keeps_blocks_disjoint(b1, i1, size1 as int, align1 as int);
    let h = a1[i1 + 1];
    assert(a1.contains(h));
    lemma_run_keeps_allocated(a1, between, h);
    lemma_run_keeps_blocks(a1, between);
    let b2 = run_steps(a1, between);
    let i2 = first_fit(b2, size2 as int, align2 as int)->Some_0;
    assert(is_first_fit(b2, size2 as int, align2 as int, i2));
    lemma_alloc_region_unshared(b2, i2, size2 as int, align2 as int);
    let k = choose|k: int| 0 <= k < b2.len() && b2[k] == h;
    assert(b2[k].is_allocated);
}

/// Lets block `i` of `headers` serve a request of `size` bytes aligned to
/// `align`: the block keeps its front part, and an allocated block (and a
/// free remainder, if any) follow it in the list.
fn provide(headers: &mut Vec<Header>, i: usize, size: usize, align: usize) -> (r: Option<usize>)
    requires
        blocks_wf(old(headers)@),
        i < old(headers)@.len(),
        request_ok(size as int, align as int),
    ensures
        blocks_wf(final(headers)@),
        r is Some <==> can_serve(old(headers)@[i as int], size as int, align as int),
        r matches Some(p) ==> {
            &&& p == placement(old(headers)@[i as int], size as int, align as int)
            &&& final(headers)@ == after_split(old(headers)@, i as int, size as int, align as int)
        },
        r is None ==> final(headers)@ == old(headers)@,
{
    let h = headers[i];
    let ghost req = size;
    let ghost req_align = align;
    let rounded = round_up_to_nearest_pow2(size);
    proof {
        if let Ok(p) = rounded {
            lemma_round_up_value(size as int, p as int);
            lemma_request_bounds(size as int, align as int);
        }
    }
    let size = rounded.ok()?.max(HEADER_SIZE);
    let align = align.max(HEADER_SIZE);
    assert(size == request_size(req as int));
    assert(align == request_align(req_align as int));
    if h.is_allocated() || !h.can_provide(size, align) {
        None
    } else {
        let mut size_used: usize = 0;
        let end_addr = h.end_addr();
        if end_addr < size {
            return None;
        }
        let ghost k = choose|k: nat| pow2(k) == align;
        proof {
            lemma_pow2_fits(k);
            lemma_align_down((end_addr - size) as usize, align, k);
            vstd::arithmetic::div_mod::lemma_fundamental_div_mod((end_addr - size) as int, align as int);
        }
        let allocated_addr = (end_addr - size) & !(align - 1);
        proof {
            let x = (end_addr - size) as int;
            let a = align as int;
            assert(x % a < a);
            assert(allocated_addr == x - x % a) by (nonlinear_arith)
                requires
                    allocated_addr == (x / a) * a,
                    x == a * (x / a) + x % a;
            assert(allocated_addr > h.addr + 2 * HEADER_SIZE);
        }
        if allocated_addr < HEADER_SIZE || allocated_addr < h.addr + HEADER_SIZE {
            return None;
        }
        let mut header_for_allocated = Header::new_from_addr(allocated_addr - HEADER_SIZE);
        header_for_allocated.is_allocated = true;
        header_for_allocated.size = size + HEADER_SIZE;
        size_used += header_for_allocated.size;
        let mut padding: Option<Header> = None;
        if header_for_allocated.end_addr() != end_addr {
            let mut header_for_padding = Header::new_from_addr(header_for_allocated.end_addr());
            header_for_padding.is_allocated = false;
            header_for_padding.size = end_addr - header_for_allocated.end_addr();
            size_used += header_for_padding.size;
            padding = Some(header_for_padding);
        }
        assert(h.size >= size_used + HEADER_SIZE);
        let mut shrunk = h;
        shrunk.size = h.size - size_used;
        headers.set(i, shrunk);
        assert(i < headers.len());
        headers.insert(i + 1, header_for_allocated);
        assert(i + 1 < headers.len());
        match padding {
            Some(pad) => {
                headers.insert(i + 2, pad);
            },
            None => {},
        }
        proof {
            assert(headers@ =~= after_split(old(headers)@, i as int, req as int, req_align as int));
        }
        Some(allocated_addr)
    }
}

/// The first-fit search over `headers`: the first block that can serve the
/// request serves it.
fn alloc_first_fit(headers: &mut Vec<Header>, size: usize, align: usize) -> (r: usize)
    requires
        blocks_wf(old(headers)@),
        request_ok(size as int, align as int),
    ensures
        blocks_wf(final(headers)@),
        match first_fit(old(headers)@, size as int, align as int) {
            None => r == 0 && final(headers)@ == old(headers)@,
            Some(i) => {
                &&& r == placement(old(headers)@[i], size as int, align as int)
                &&& final(headers)@ == after_split(old(headers)@, i, size as int, align as int)
            },
        },
{
    let mut i: usize = 0;
    while i < headers.len()
        invariant
            blocks_wf(old(headers)@),
            headers@ == old(headers)@,
            i <= headers@.len(),
            request_ok(size as int, align as int),
            forall|j: int| 0 <= j < i ==> !can_serve(#[trigger] headers@[j], size as int, align as int),
        decreases headers@.len() - i,
    {
        match provide(headers, i, size, align) {
            Some(p) => {
                proof {
                    assert(is_first_fit(old(headers)@, size as int, align as int, i as int));
                    let c = choose|c: int| is_first_fit(old(headers)@, size as int, align as int, c);
                    lemma_first_fit_unique(old(headers)@, size as int, align as int, i as int, c);
                }
                return p;
            },
            None => {
                i = i + 1;
            },
        }
    }
    proof {
        assert forall|c: int| !is_first_fit(old(headers)@, size as int, align as int, c) by {
            if 0 <= c < old(headers)@.len() {
                assert(!can_serve(old(headers)@[c], size as int, align as int));
            }
        }
    }
    0
}

/// The index of the first block of `headers` whose header sits right before
/// the data address `addr`.
fn from_allocated_region(headers: &Vec<Header>, addr: usize) -> (r: usize)
    requires
        addr >= HEADER_SIZE,
        has_header_at(headers@, addr - HEADER_SIZE),
    ensures
        r == header_index(headers@, addr - HEADER_SIZE),
        is_header_index(headers@, addr - HEADER_SIZE, r as int),
{
    let header_addr = addr - HEADER_SIZE;
    let mut j: usize = 0;
    while j < headers.len()
        invariant
            j <= headers@.len(),
            header_addr == addr - HEADER_SIZE,
            has_header_at(headers@, header_addr as int),
            forall|k: int| 0 <= k < j ==> (#[trigger] headers@[k]).addr != header_addr,
        decreases headers@.len() - j,
    {
        if headers[j].addr == header_addr {
            proof {
                assert(is_header_index(headers@, header_addr as int, j as int));
                let c = header_index(headers@, header_addr as int);
                lemma_header_index_unique(headers@, header_addr as int, j as int, c);
            }
            return j;
        }
        j = j + 1;
    }
    proof {
        let w = choose|w: int| 0 <= w < headers@.len() && (#[trigger] headers@[w]).addr == header_addr;
        assert(headers@[w].addr != header_addr);
    }
    0
}

/// A first-fit allocator: the blocks it manages form a list, searched from
/// the front for the first free block that can serve a request.
pub struct FirstFitAllocator {
    headers: Vec<Header>,
}

impl View for FirstFitAllocator {
    type V = Seq<Header>;

    closed spec fn view(&self) -> Seq<Header> {
        self.headers@
    }
}

impl FirstFitAllocator {
    /// Every block fits in the address space and is non-empty.
    #[verifier::type_invariant]
    spec fn inv(self) -> bool {
        blocks_wf(self.headers@)
    }

    /// An allocator that manages no memory yet.
    pub fn new() -> (r: FirstFitAllocator)
        ensures
            r@ == Seq::<Header>::empty(),
    {
        FirstFitAllocator { headers: Vec::new() }
    }

    /// The blocks, in list order.
    pub fn headers(&self) -> (r: &Vec<Header>)
        ensures
            r@ == self@,
            blocks_wf(self@),
    {
        proof {
            use_type_invariant(self);
        }
        &self.headers
    }

    /// Allocates memory for `layout` from the first block that can serve it.
    ///
    /// Returns the address of the memory, or 0 when no block can serve the
    /// request (in which case nothing changes).
    pub fn alloc_with_options(&mut self, layout: Layout) -> (r: usize)
        ensures
            blocks_wf(old(self)@),
            blocks_wf(final(self)@),
            match first_fit(old(self)@, layout.size() as int, layout.align() as int) {
                None => r == 0 && final(self)@ == old(self)@,
                Some(i) => {
                    &&& r == placement(old(self)@[i], layout.size() as int, layout.align() as int)
                    &&& final(self)@ == after_split(old(self)@, i, layout.size() as int, layout.align() as int)
                },
            },
            r == 0 <==> forall|j: int| 0 <= j < old(self)@.len()
                ==> !can_serve(#[trigger] old(self)@[j], layout.size() as int, layout.align() as int),
            r != 0 ==> r as int % layout.align() as int == 0,
            r != 0 ==> r >= HEADER_SIZE && has_header_at(final(self)@, r - HEADER_SIZE),
            r != 0 && blocks_disjoint(old(self)@) ==> {
                let h = final(self)@[header_index(final(self)@, r - HEADER_SIZE)];
                &&& h.is_allocated
                &&& h.size == request_size(layout.size() as int) + HEADER_SIZE
            },
            blocks_disjoint(old(self)@) ==> blocks_disjoint(final(self)@),
            blocks_aligned(old(self)@) ==> blocks_aligned(final(self)@),
            final(self)@ == apply_step(old(self)@, Step::Alloc(layout.size(), layout.align())),
    {
        proof {
            use_type_invariant(&*self);
            use_type_invariant(&layout);
            lemma_layout_request_ok(layout.size() as int, layout.align() as int);
        }
        let size = layout.size();
        let align = layout.align();
        let mut headers: Vec<Header> = Vec::new();
        std::mem::swap(&mut headers, &mut self.headers);
        let r = alloc_first_fit(&mut headers, size, align);
        proof {
            let old_blocks = old(self)@;
            if r != 0 {
                let i = choose|i: int| is_first_fit(old_blocks, size as int, align as int, i);
                lemma_placement_facts(old_blocks[i], size as int, align as int);
                lemma_placement_aligned(old_blocks[i], size as int, align as int);
                lemma_split_shape(old_blocks, i, size as int, align as int);
                assert(headers@[i + 1] == split_block(old_blocks[i], size as int, align as int)[1]);
                if blocks_aligned(old_blocks) {
                    lemma_alloc_keeps_blocks_aligned(old_blocks, i, size as int, align as int);
                }
                if blocks_disjoint(old_blocks) {
                    lemma_alloc_keeps_blocks_disjoint(old_blocks, i, size as int, align as int);
                    lemma_free_after_alloc(old_blocks, i, size as int, align as int);
                }
            } else {
                if first_fit(old_blocks, size as int, align as int) is Some {
                    let i = choose|i: int| is_first_fit(old_blocks, size as int, align as int, i);
                    lemma_placement_facts(old_blocks[i], size as int, align as int);
                }
            }
            if first_fit(old_blocks, size as int, align as int) is None {
                assert forall|j: int| 0 <= j < old_blocks.len() implies !can_serve(#[trigger] old_blocks[j], size as int, align as int) by {
                    if can_serve(old_blocks[j], size as int, align as int) {
                        lemma_first_fit_exists(old_blocks, size as int, align as int, j);
                    }
                }
            }
        }
        self.headers = headers;
        r
    }

    /// Releases the memory at `ptr`: the block whose header sits right
    /// before it becomes free again. Blocks are not merged.
    pub fn dealloc(&mut self, ptr: usize, layout: Layout)
        requires
            ptr >= HEADER_SIZE,
            has_header_at(old(self)@, ptr - HEADER_SIZE),
        ensures
            blocks_wf(final(self)@),
            final(self)@ == after_free(old(self)@, ptr as int),
            blocks_disjoint(old(self)@) ==> blocks_disjoint(final(self)@),
            blocks_aligned(old(self)@) ==> blocks_aligned(final(self)@),
            final(self)@ == apply_step(old(self)@, Step::Free(ptr)),
    {
        proof {
            use_type_invariant(&*self);
            if blocks_aligned(old(self)@) {
                lemma_free_keeps_blocks_aligned(old(self)@, ptr as int);
            }
        }
        let mut headers: Vec<Header> = Vec::new();
        std::mem::swap(&mut headers, &mut self.headers);
        let j = from_allocated_region(&headers, ptr);
        let mut region = headers[j];
        region.is_allocated = false;
        headers.set(j, region);
        proof {
            assert(headers@ =~= after_free(old(self)@, ptr as int));
        }
        self.headers = headers;
    }

    /// Adds the free region of a conventional-memory descriptor at the
    /// front of the block list.
    fn add_free_from_descriptor(&mut self, desc: &EfiMemoryDescriptor)
        requires
            descriptor_fits(*desc),
        ensures
            blocks_wf(final(self)@),
            final(self)@ == match free_region(*desc) {
                Some(h) => seq![h] + old(self)@,
                None => old(self)@,
            },
    {
        proof {
            use_type_invariant(&*self);
        }
        let mut start_addr = desc.physical_start() as usize;
        let mut size = desc.number_of_pages() as usize * UEFI_PAGE_SIZE;
        if start_addr == 0 {
            start_addr += UEFI_PAGE_SIZE;
            size = size.saturating_sub(UEFI_PAGE_SIZE);
        }
        if size <= UEFI_PAGE_SIZE {
            return;
        }
        let mut header = Header::new_from_addr(start_addr);
        header.is_allocated = false;
        header.size = size;
        let mut headers: Vec<Header> = Vec::new();
        std::mem::swap(&mut headers, &mut self.headers);
        headers.insert(0, header);
        proof {
            assert(headers@ =~= seq![header] + old(self)@);
        }
        self.headers = headers;
    }

    /// Adds the free regions of every conventional-memory descriptor of the
    /// map, each in front of the blocks added before it.
    pub fn init_with_mmap(&mut self, memory_map: &MemoryMapHolder)
        requires
            map_fits(memory_map@),
        ensures
            blocks_wf(final(self)@),
            final(self)@ == init_blocks(old(self)@, memory_map@),
            old(self)@.len() == 0 && map_disjoint(memory_map@) ==> blocks_disjoint(final(self)@),
    {
        proof {
            use_type_invariant(&*self);
        }
        let descs = memory_map.descriptors();
        let mut k: usize = 0;
        while k < descs.len()
            invariant
                k <= descs@.len(),
                descs@ == memory_map@,
                map_fits(memory_map@),
                blocks_wf(self@),
                self@ == init_blocks(old(self)@, descs@.take(k as int)),
            decreases descs@.len() - k,
        {
            let e = &descs[k];
            proof {
                assert(descs@.take(k + 1).drop_last() =~= descs@.take(k as int));
            }
            if e.memory_type() != EfiMemoryType::CONVENTIONAL_MEMORY {
                k = k + 1;
                continue;
            }
            self.add_free_from_descriptor(e);
            k = k + 1;
        }
        proof {
            assert(descs@.take(k as int) =~= descs@);
            if old(self)@.len() == 0 && map_disjoint(memory_map@) {
                lemma_init_keeps_blocks_disjoint(old(self)@, memory_map@);
            }
        }
    }
}

} // verus!

